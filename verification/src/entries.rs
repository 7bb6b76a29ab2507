//! Entries: the declarative mounting tree and its document form.
//!
//! An entry is one configured instance of a plugin kind with a stable id; an
//! [`EntryTree`] is the set of entries, the host's config file. Rows may
//! declare a parent group: groups are pure containers that mount no fiber,
//! but disabling one cascades to every descendant.

use crate::fiber::text_view;
use crate::json::{Json, JsonView, Object, field, same_json};
use crate::text::{decimal, number_text};
use vstd::prelude::*;
use vstd::std_specs::cmp::PartialEqSpecImpl;

verus! {

/// One serialized entry row: `id`, optional `plugin`, optional `parent`,
/// optional `config`, `disabled`.
///
/// A row without a `plugin` is a group: a pure container that mounts no fiber
/// but cascades its `disabled` flag onto every descendant. Hierarchy is
/// expressed with `parent` references; a parent must be a group declared
/// anywhere in the same tree.
#[derive(Debug)]
pub struct EntrySpec {
    /// Stable identity inside the tree; the unit of reconciliation.
    pub id: String,
    /// The plugin kind's registered name; absent for group rows.
    pub plugin: Option<String>,
    /// The id of the group this entry belongs to, if any.
    pub parent: Option<String>,
    /// The instance's configuration; absent means an empty object.
    pub config: Option<Json>,
    /// Disabled entries stay declared but mount no fiber; the flag cascades
    /// down the parent chain.
    pub disabled: Option<bool>,
}

/// What an entry row is.
#[verifier::ext_equal]
pub struct EntryView {
    pub id: Seq<char>,
    pub plugin: Option<Seq<char>>,
    pub parent: Option<Seq<char>>,
    pub config: Option<JsonView>,
    pub disabled: Option<bool>,
}

/// What an optional value is.
pub open spec fn config_view(config: Option<Json>) -> Option<JsonView> {
    match config {
        Some(value) => Some(value@),
        None => None,
    }
}

impl View for EntrySpec {
    type V = EntryView;

    open spec fn view(&self) -> EntryView {
        EntryView {
            id: self.id@,
            plugin: text_view(self.plugin),
            parent: text_view(self.parent),
            config: config_view(self.config),
            disabled: self.disabled,
        }
    }
}

/// Whether the row itself is not disabled.
pub open spec fn enabled(row: EntryView) -> bool {
    row.disabled != Some(true)
}

/// Whether the row is a group container.
pub open spec fn is_group(row: EntryView) -> bool {
    row.plugin is None
}

/// Whether two rows say the same.
pub open spec fn same_entry(a: EntryView, b: EntryView) -> bool {
    &&& a.id == b.id
    &&& a.plugin == b.plugin
    &&& a.parent == b.parent
    &&& a.disabled == b.disabled
    &&& match (a.config, b.config) {
        (Some(x), Some(y)) => same_json(x, y),
        (None, None) => true,
        _ => false,
    }
}

/// Why entries cannot be loaded.
#[derive(Debug)]
pub enum LoadError {
    /// The text is no JSON document, for this reason.
    InvalidDocument(String),
    /// The tree is not an array of rows.
    NotATree,
    /// The layer is not an array of rows.
    NotALayer,
    /// A row does not have the shape of one, for this reason.
    InvalidRow(String),
    /// A row has an empty id.
    EmptyId,
    /// The group with this id carries a config.
    GroupConfig(String),
    /// Two rows have this id.
    DuplicateId(String),
    /// The row with the first id names the second as its parent, which is not
    /// there.
    UnknownParent(String, String),
    /// The row with the first id names the second as its parent, which is no
    /// group.
    ParentNotGroup(String, String),
    /// The row with this id sits on a parent cycle.
    ParentCycle(String),
    /// The entry with the first id is of a kind that is not registered.
    UnknownKind(String, String),
    /// The entry with the first id is to be built from a kind that is not
    /// registered.
    UsesUnknownKind(String, String),
    /// The config of the entry does not fit its kind, for this reason.
    InvalidConfig(String, String),
    /// The entry could not be built, for this reason.
    BuildFailed(String, String),
    /// The loader has entries mounted already.
    AlreadyMounted,
    /// A kind of this name is registered already.
    DuplicateKind(String),
    /// The tree cannot be written.
    NotSerializable,
}

/// What an error says.
pub enum LoadErrorView {
    InvalidDocument(Seq<char>),
    NotATree,
    NotALayer,
    InvalidRow(Seq<char>),
    EmptyId,
    GroupConfig(Seq<char>),
    DuplicateId(Seq<char>),
    UnknownParent(Seq<char>, Seq<char>),
    ParentNotGroup(Seq<char>, Seq<char>),
    ParentCycle(Seq<char>),
    UnknownKind(Seq<char>, Seq<char>),
    UsesUnknownKind(Seq<char>, Seq<char>),
    InvalidConfig(Seq<char>, Seq<char>),
    BuildFailed(Seq<char>, Seq<char>),
    AlreadyMounted,
    DuplicateKind(Seq<char>),
    NotSerializable,
}

impl View for LoadError {
    type V = LoadErrorView;

    open spec fn view(&self) -> LoadErrorView {
        match self {
            LoadError::InvalidDocument(reason) => LoadErrorView::InvalidDocument(reason@),
            LoadError::NotATree => LoadErrorView::NotATree,
            LoadError::NotALayer => LoadErrorView::NotALayer,
            LoadError::InvalidRow(reason) => LoadErrorView::InvalidRow(reason@),
            LoadError::EmptyId => LoadErrorView::EmptyId,
            LoadError::GroupConfig(id) => LoadErrorView::GroupConfig(id@),
            LoadError::DuplicateId(id) => LoadErrorView::DuplicateId(id@),
            LoadError::UnknownParent(id, parent) => LoadErrorView::UnknownParent(id@, parent@),
            LoadError::ParentNotGroup(id, parent) => LoadErrorView::ParentNotGroup(id@, parent@),
            LoadError::ParentCycle(id) => LoadErrorView::ParentCycle(id@),
            LoadError::UnknownKind(id, kind) => LoadErrorView::UnknownKind(id@, kind@),
            LoadError::UsesUnknownKind(id, kind) => LoadErrorView::UsesUnknownKind(id@, kind@),
            LoadError::InvalidConfig(id, reason) => LoadErrorView::InvalidConfig(id@, reason@),
            LoadError::BuildFailed(id, reason) => LoadErrorView::BuildFailed(id@, reason@),
            LoadError::AlreadyMounted => LoadErrorView::AlreadyMounted,
            LoadError::DuplicateKind(name) => LoadErrorView::DuplicateKind(name@),
            LoadError::NotSerializable => LoadErrorView::NotSerializable,
        }
    }
}

/// What an error renders as: what went wrong, without the cause.
pub open spec fn error_text(error: LoadErrorView) -> Seq<char> {
    match error {
        LoadErrorView::InvalidDocument(_) => "invalid entry tree document"@,
        LoadErrorView::NotATree => "an entry tree is an array of entry rows"@,
        LoadErrorView::NotALayer => "an entry layer must be an array of entry rows"@,
        LoadErrorView::InvalidRow(_) => "invalid entry row"@,
        LoadErrorView::EmptyId => "entry ids must be non-empty"@,
        LoadErrorView::GroupConfig(id) => "group \""@ + id + "\" must not carry a config"@,
        LoadErrorView::DuplicateId(id) => "duplicate entry id \""@ + id + "\""@,
        LoadErrorView::UnknownParent(id, parent) => "entry \""@ + id
            + "\" references unknown parent \""@ + parent + "\""@,
        LoadErrorView::ParentNotGroup(id, parent) => "entry \""@ + id + "\" declares \""@ + parent
            + "\" as parent, but only groups can parent"@,
        LoadErrorView::ParentCycle(id) => "entry \""@ + id + "\" sits on a parent cycle"@,
        LoadErrorView::UnknownKind(id, _) => "entry \""@ + id + "\" is invalid"@,
        LoadErrorView::UsesUnknownKind(id, kind) => "entry \""@ + id + "\" uses unknown kind \""@
            + kind + "\""@,
        LoadErrorView::InvalidConfig(id, _) => "entry \""@ + id + "\" is invalid"@,
        LoadErrorView::BuildFailed(id, _) => "entry \""@ + id + "\" failed to build"@,
        LoadErrorView::AlreadyMounted =>
            "the loader already has entries mounted; use reconcile"@,
        LoadErrorView::DuplicateKind(name) => "entry kind \""@ + name
            + "\" is already registered"@,
        LoadErrorView::NotSerializable => "entry tree is not serializable"@,
    }
}

/// What caused an error, where something else did.
pub open spec fn error_cause(error: LoadErrorView) -> Option<Seq<char>> {
    match error {
        LoadErrorView::InvalidDocument(reason) => Some(reason),
        LoadErrorView::InvalidRow(reason) => Some(reason),
        LoadErrorView::UnknownKind(_, kind) => Some("unknown kind \""@ + kind + "\""@),
        LoadErrorView::InvalidConfig(_, reason) => Some(reason),
        LoadErrorView::BuildFailed(_, reason) => Some(reason),
        _ => None,
    }
}

/// Puts five texts together.
fn text_of(a: &str, b: &str, c: &str, d: &str, e: &str) -> (r: String)
    ensures
        r@ == a@ + b@ + c@ + d@ + e@,
{
    let mut out = a.to_owned();
    out.append(b);
    out.append(c);
    out.append(d);
    out.append(e);
    out
}

impl LoadError {
    /// What caused the error, where something else did.
    pub fn cause(&self) -> (r: Option<String>)
        ensures
            text_view(r) == error_cause(self@),
    {
        match self {
            LoadError::InvalidDocument(reason) => Some(reason.clone()),
            LoadError::InvalidRow(reason) => Some(reason.clone()),
            LoadError::UnknownKind(_, kind) => {
                let cause = text_of("unknown kind \"", kind.as_str(), "\"", "", "");
                proof {
                    reveal_strlit("");
                    assert(cause@ =~= "unknown kind \""@ + kind@ + "\""@);
                }
                Some(cause)
            },
            LoadError::InvalidConfig(_, reason) => Some(reason.clone()),
            LoadError::BuildFailed(_, reason) => Some(reason.clone()),
            _ => None,
        }
    }

    /// The text the error renders as: what went wrong, without the cause.
    pub fn to_string(&self) -> (r: String)
        ensures
            r@ == error_text(self@),
    {
        let out = match self {
            LoadError::InvalidDocument(_) => "invalid entry tree document".to_owned(),
            LoadError::NotATree => "an entry tree is an array of entry rows".to_owned(),
            LoadError::NotALayer => "an entry layer must be an array of entry rows".to_owned(),
            LoadError::InvalidRow(_) => "invalid entry row".to_owned(),
            LoadError::EmptyId => "entry ids must be non-empty".to_owned(),
            LoadError::GroupConfig(id) => text_of(
                "group \"",
                id.as_str(),
                "\" must not carry a config",
                "",
                "",
            ),
            LoadError::DuplicateId(id) => text_of(
                "duplicate entry id \"",
                id.as_str(),
                "\"",
                "",
                "",
            ),
            LoadError::UnknownParent(id, parent) => text_of(
                "entry \"",
                id.as_str(),
                "\" references unknown parent \"",
                parent.as_str(),
                "\"",
            ),
            LoadError::ParentNotGroup(id, parent) => text_of(
                "entry \"",
                id.as_str(),
                "\" declares \"",
                parent.as_str(),
                "\" as parent, but only groups can parent",
            ),
            LoadError::ParentCycle(id) => text_of(
                "entry \"",
                id.as_str(),
                "\" sits on a parent cycle",
                "",
                "",
            ),
            LoadError::UnknownKind(id, _) => text_of(
                "entry \"",
                id.as_str(),
                "\" is invalid",
                "",
                "",
            ),
            LoadError::UsesUnknownKind(id, kind) => text_of(
                "entry \"",
                id.as_str(),
                "\" uses unknown kind \"",
                kind.as_str(),
                "\"",
            ),
            LoadError::InvalidConfig(id, _) => text_of(
                "entry \"",
                id.as_str(),
                "\" is invalid",
                "",
                "",
            ),
            LoadError::BuildFailed(id, _) => text_of(
                "entry \"",
                id.as_str(),
                "\" failed to build",
                "",
                "",
            ),
            LoadError::AlreadyMounted =>
                "the loader already has entries mounted; use reconcile".to_owned(),
            LoadError::DuplicateKind(name) => text_of(
                "entry kind \"",
                name.as_str(),
                "\" is already registered",
                "",
                "",
            ),
            LoadError::NotSerializable => "entry tree is not serializable".to_owned(),
        };
        proof {
            reveal_strlit("");
            assert(out@ =~= error_text(self@));
        }
        out
    }
}

impl EntrySpec {
    /// An enabled entry or group.
    pub fn enabled(&self) -> (r: bool)
        ensures
            r == enabled(self@),
    {
        match self.disabled {
            Some(disabled) => !disabled,
            None => true,
        }
    }

    /// Whether this row is a group container.
    pub fn is_group(&self) -> (r: bool)
        ensures
            r == is_group(self@),
    {
        self.plugin.is_none()
    }

    /// A copy of the row.
    pub fn copy(&self) -> (r: Self)
        ensures
            r@ == self@,
    {
        EntrySpec {
            id: self.id.clone(),
            plugin: copy_text(&self.plugin),
            parent: copy_text(&self.parent),
            config: match &self.config {
                Some(value) => Some(value.copy()),
                None => None,
            },
            disabled: self.disabled,
        }
    }

    /// Whether two rows say the same.
    pub fn same(&self, other: &EntrySpec) -> (r: bool)
        ensures
            r == same_entry(self@, other@),
    {
        let config = match (&self.config, &other.config) {
            (Some(x), Some(y)) => x.same(y),
            (None, None) => true,
            _ => false,
        };
        let disabled = match (self.disabled, other.disabled) {
            (Some(x), Some(y)) => x == y,
            (None, None) => true,
            _ => false,
        };
        self.id == other.id && same_optional(&self.plugin, &other.plugin) && same_optional(
            &self.parent,
            &other.parent,
        ) && disabled && config
    }
}

impl Clone for EntrySpec {
    fn clone(&self) -> (r: Self)
        ensures
            r@ == self@,
    {
        self.copy()
    }
}

impl PartialEq for EntrySpec {
    fn eq(&self, other: &Self) -> (r: bool) {
        self.same(other)
    }
}

impl PartialEqSpecImpl for EntrySpec {
    open spec fn obeys_eq_spec() -> bool {
        true
    }

    open spec fn eq_spec(&self, other: &Self) -> bool {
        same_entry(self@, other@)
    }
}

/// A copy of an optional text.
pub(crate) fn copy_text(text: &Option<String>) -> (r: Option<String>)
    ensures
        text_view(r) == text_view(*text),
{
    match text {
        Some(text) => Some(text.clone()),
        None => None,
    }
}

/// Whether two optional texts are the same.
fn same_optional(a: &Option<String>, b: &Option<String>) -> (r: bool)
    ensures
        r == (text_view(*a) == text_view(*b)),
{
    match (a, b) {
        (Some(x), Some(y)) => *x == *y,
        (None, None) => true,
        _ => false,
    }
}

// ---- reading a row ----

/// The place of a row that holds a value: by name in an object, by position
/// in an array.
pub open spec fn cell(row: JsonView, name: Seq<char>, position: int) -> Option<JsonView> {
    match row {
        JsonView::Object(fields) => field(fields, name),
        JsonView::Array(items) => if 0 <= position < items.len() {
            Some(items[position])
        } else {
            None
        },
        _ => None,
    }
}

/// Whether a number is written as an integer.
pub open spec fn integral(text: Seq<char>) -> bool {
    forall|i: int| 0 <= i < text.len() ==> #[trigger] text[i] != '.' && text[i] != 'e'
}

/// How a text prints with quotes around it and what needs it escaped.
pub uninterp spec fn quoted_text(text: Seq<char>) -> Seq<char>;

/// Prints a text by the `Debug` of [`str`].
#[verifier::external_body]
fn quoted(text: &str) -> (r: String)
    ensures
        r@ == quoted_text(text@),
{
    format!("{text:?}")
}

/// What a value is said to be where another type was expected.
pub open spec fn described(value: JsonView) -> Seq<char> {
    match value {
        JsonView::Null => "null"@,
        JsonView::Bool(true) => "boolean `true`"@,
        JsonView::Bool(false) => "boolean `false`"@,
        JsonView::Number(text) => if integral(text) {
            "integer `"@ + text + "`"@
        } else {
            "floating point `"@ + text + "`"@
        },
        JsonView::Text(text) => "string "@ + quoted_text(text),
        JsonView::Array(_) => "sequence"@,
        JsonView::Object(_) => "map"@,
    }
}

/// What is wrong with a value where another type was expected.
pub open spec fn mistyped(value: JsonView, expected: Seq<char>) -> Seq<char> {
    "invalid type: "@ + described(value) + ", expected "@ + expected
}

/// What is wrong with a cell that should hold a text, if anything is; an
/// absent one is in order, and a `null` where it may stand for nothing.
pub open spec fn text_fault(cell: Option<JsonView>, optional: bool) -> Option<Seq<char>> {
    match cell {
        Some(JsonView::Text(_)) => None,
        Some(value) => if optional && value is Null {
            None
        } else {
            Some(mistyped(value, "a string"@))
        },
        None => None,
    }
}

/// What is wrong with a cell that should hold an optional flag, if anything
/// is.
pub open spec fn flag_fault(cell: Option<JsonView>) -> Option<Seq<char>> {
    match cell {
        Some(JsonView::Null) => None,
        Some(JsonView::Bool(_)) => None,
        Some(value) => Some(mistyped(value, "a boolean"@)),
        None => None,
    }
}

/// The optional text in a cell.
pub open spec fn text_cell(cell: Option<JsonView>) -> Option<Seq<char>> {
    match cell {
        Some(JsonView::Text(text)) => Some(text),
        _ => None,
    }
}

/// The first of two faults, if there is any.
pub open spec fn first_of(a: Option<Seq<char>>, b: Option<Seq<char>>) -> Option<Seq<char>> {
    match a {
        Some(fault) => Some(fault),
        None => b,
    }
}

/// What keeps a value from having the shape of an entry row, if anything
/// does. A row is an object with a textual `id` and optional other fields of
/// the right type, or an array with the same in the order of the fields.
/// Fields that a row does not have are passed over. The fields of an object
/// are looked at in the order of their names.
pub open spec fn row_fault(row: JsonView) -> Option<Seq<char>> {
    let id = cell(row, "id"@, 0);
    let plugin = text_fault(cell(row, "plugin"@, 1), true);
    let parent = text_fault(cell(row, "parent"@, 2), true);
    let disabled = flag_fault(cell(row, "disabled"@, 4));
    match row {
        JsonView::Object(_) => first_of(
            disabled,
            first_of(
                text_fault(id, false),
                first_of(
                    parent,
                    first_of(
                        plugin,
                        if id is None {
                            Some("missing field `id`"@)
                        } else {
                            None
                        },
                    ),
                ),
            ),
        ),
        JsonView::Array(items) => if items.len() == 0 {
            Some("invalid length 0, expected struct EntrySpec with 5 elements"@)
        } else {
            first_of(
                text_fault(id, false),
                first_of(
                    plugin,
                    first_of(
                        parent,
                        first_of(
                            disabled,
                            if items.len() > 5 {
                                Some(
                                    "invalid length "@ + decimal(items.len())
                                        + ", expected fewer elements in array"@,
                                )
                            } else {
                                None
                            },
                        ),
                    ),
                ),
            )
        },
        _ => Some(mistyped(row, "struct EntrySpec"@)),
    }
}

/// The entry that a row stands for. A `null` stands for nothing.
pub open spec fn row_entry(row: JsonView) -> EntryView {
    EntryView {
        id: cell(row, "id"@, 0)->0->Text_0,
        plugin: text_cell(cell(row, "plugin"@, 1)),
        parent: text_cell(cell(row, "parent"@, 2)),
        config: match cell(row, "config"@, 3) {
            Some(JsonView::Null) => None,
            Some(value) => Some(value),
            None => None,
        },
        disabled: match cell(row, "disabled"@, 4) {
            Some(JsonView::Bool(disabled)) => Some(disabled),
            _ => None,
        },
    }
}

/// Why a row is refused, if it is: it must have the shape of one, carry a
/// non-empty id, and groups must not carry a config.
pub open spec fn row_error(row: JsonView) -> Option<LoadErrorView> {
    if row_fault(row) is Some {
        Some(LoadErrorView::InvalidRow(row_fault(row)->0))
    } else if row_entry(row).id.len() == 0 {
        Some(LoadErrorView::EmptyId)
    } else if is_group(row_entry(row)) && row_entry(row).config is Some {
        Some(LoadErrorView::GroupConfig(row_entry(row).id))
    } else {
        None
    }
}

/// The place of a row that holds a value.
fn find_cell<'a>(row: &'a Json, name: &str, position: usize) -> (r: Option<&'a Json>)
    ensures
        match r {
            Some(value) => cell(row@, name@, position as int) == Some(value@),
            None => cell(row@, name@, position as int) is None,
        },
{
    broadcast use crate::json::lemma_value_view;

    match row {
        Json::Object(object) => object.get(name),
        Json::Array(items) => if position < items.len() {
            Some(&items[position])
        } else {
            None
        },
        _ => None,
    }
}

/// What a cell that was found holds.
pub open spec fn cell_view(value: Option<&Json>) -> Option<JsonView> {
    match value {
        Some(value) => Some(value@),
        None => None,
    }
}

/// Whether a number is written as an integer.
fn is_integral(text: &str) -> (r: bool)
    ensures
        r == integral(text@),
{
    let n = text.unicode_len();
    let mut i: usize = 0;
    while i < n
        invariant
            n == text@.len(),
            i <= n,
            forall|j: int| 0 <= j < i ==> #[trigger] text@[j] != '.' && text@[j] != 'e',
        decreases n - i,
    {
        let c = text.get_char(i);
        if c == '.' || c == 'e' {
            assert(text@[i as int] == c);
            return false;
        }
        i = i + 1;
    }
    true
}

/// What a value is said to be where another type was expected.
fn describe_value(value: &Json) -> (r: String)
    ensures
        r@ == described(value@),
{
    broadcast use crate::json::lemma_value_view;

    let out = match value {
        Json::Null => "null".to_owned(),
        Json::Bool(b) => if *b {
            "boolean `true`".to_owned()
        } else {
            "boolean `false`".to_owned()
        },
        Json::Number(n) => {
            let text = n.text();
            if is_integral(text.as_str()) {
                text_of("integer `", text.as_str(), "`", "", "")
            } else {
                text_of("floating point `", text.as_str(), "`", "", "")
            }
        },
        Json::String(text) => text_of("string ", quoted(text.as_str()).as_str(), "", "", ""),
        Json::Array(_) => "sequence".to_owned(),
        Json::Object(_) => "map".to_owned(),
    };
    proof {
        reveal_strlit("");
        assert(out@ =~= described(value@));
    }
    out
}

/// What is wrong with a value where another type was expected.
fn mistype(value: &Json, expected: &str) -> (r: String)
    ensures
        r@ == mistyped(value@, expected@),
{
    let out = text_of(
        "invalid type: ",
        describe_value(value).as_str(),
        ", expected ",
        expected,
        "",
    );
    proof {
        reveal_strlit("");
        assert(out@ =~= mistyped(value@, expected@));
    }
    out
}

/// What is wrong with a cell that should hold a text, if anything is.
fn check_text(value: Option<&Json>, optional: bool) -> (r: Option<String>)
    ensures
        text_view(r) == text_fault(cell_view(value), optional),
{
    broadcast use crate::json::lemma_value_view;

    match value {
        Some(Json::String(_)) => None,
        Some(Json::Null) => if optional {
            None
        } else {
            Some(mistype(&Json::Null, "a string"))
        },
        Some(value) => Some(mistype(value, "a string")),
        None => None,
    }
}

/// What is wrong with a cell that should hold an optional flag, if anything
/// is.
fn check_flag(value: Option<&Json>) -> (r: Option<String>)
    ensures
        text_view(r) == flag_fault(cell_view(value)),
{
    broadcast use crate::json::lemma_value_view;

    match value {
        Some(Json::Null) => None,
        Some(Json::Bool(_)) => None,
        Some(value) => Some(mistype(value, "a boolean")),
        None => None,
    }
}

/// The first of two faults, if there is any.
fn either(a: Option<String>, b: Option<String>) -> (r: Option<String>)
    ensures
        text_view(r) == first_of(text_view(a), text_view(b)),
{
    match a {
        Some(fault) => Some(fault),
        None => b,
    }
}

/// What keeps a value from having the shape of an entry row, if anything
/// does.
fn check_row(row: &Json) -> (r: Option<String>)
    ensures
        text_view(r) == row_fault(row@),
{
    broadcast use crate::json::lemma_value_view;

    let id = find_cell(row, "id", 0);
    let missing = id.is_none();
    let id = check_text(id, false);
    let plugin = check_text(find_cell(row, "plugin", 1), true);
    let parent = check_text(find_cell(row, "parent", 2), true);
    let disabled = check_flag(find_cell(row, "disabled", 4));
    match row {
        Json::Object(_) => {
            let last = if missing {
                Some("missing field `id`".to_owned())
            } else {
                None
            };
            either(disabled, either(id, either(parent, either(plugin, last))))
        },
        Json::Array(items) => if items.len() == 0 {
            Some("invalid length 0, expected struct EntrySpec with 5 elements".to_owned())
        } else {
            let last = if items.len() > 5 {
                let text = text_of(
                    "invalid length ",
                    number_text(items.len()).as_str(),
                    ", expected fewer elements in array",
                    "",
                    "",
                );
                proof {
                    reveal_strlit("");
                    assert(text@ =~= "invalid length "@ + decimal(items@.len())
                        + ", expected fewer elements in array"@);
                }
                Some(text)
            } else {
                None
            };
            either(id, either(plugin, either(parent, either(disabled, last))))
        },
        _ => Some(mistype(row, "struct EntrySpec")),
    }
}

/// The text in a cell, if there is one.
fn read_text(value: Option<&Json>) -> (r: Option<String>)
    ensures
        text_view(r) == text_cell(cell_view(value)),
{
    broadcast use crate::json::lemma_value_view;

    match value {
        Some(Json::String(text)) => Some(text.clone()),
        _ => None,
    }
}

/// Parses and shape-checks one entry row: it must have the shape of a row,
/// carry a non-empty id, and groups must not carry a config.
pub fn parse_row(row: &Json) -> (r: Result<EntrySpec, LoadError>)
    ensures
        match r {
            Ok(spec) => row_error(row@) is None && spec@ == row_entry(row@),
            Err(error) => row_error(row@) == Some(error@),
        },
{
    broadcast use crate::json::lemma_value_view;

    if let Some(reason) = check_row(row) {
        return Err(LoadError::InvalidRow(reason));
    }
    let id = match read_text(find_cell(row, "id", 0)) {
        Some(id) => id,
        None => String::new(),
    };
    let plugin = read_text(find_cell(row, "plugin", 1));
    let parent = read_text(find_cell(row, "parent", 2));
    let config = match find_cell(row, "config", 3) {
        Some(Json::Null) => None,
        Some(value) => Some(value.copy()),
        None => None,
    };
    let disabled = match find_cell(row, "disabled", 4) {
        Some(Json::Bool(disabled)) => Some(*disabled),
        _ => None,
    };
    let spec = EntrySpec { id, plugin, parent, config, disabled };
    assert(spec@ =~= row_entry(row@));
    if spec.id.as_str().is_empty() {
        return Err(LoadError::EmptyId);
    }
    if spec.is_group() && spec.config.is_some() {
        return Err(LoadError::GroupConfig(spec.id));
    }
    Ok(spec)
}

} // verus!
