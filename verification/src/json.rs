//! The value tree, and the printer that renders it as indented text.

use indexmap::IndexMap;
use vstd::prelude::*;
use vstd::string::StringExecFns;

verus! {

/// A JSON value as a mathematical value. An object is the sequence of its
/// entries in the order in which their keys were first inserted; a number is
/// its decimal text.
pub enum JsonView {
    Object(Seq<(Seq<char>, JsonView)>),
    Array(Seq<JsonView>),
    String(Seq<char>),
    Number(Seq<char>),
    True,
    False,
    Null,
}

/// The entries that the map of an object holds, in the order in which their
/// keys were first inserted.
pub uninterp spec fn object_entries(object: JsonObject) -> Seq<(Seq<char>, JsonView)>;

/// Whether no two entries have the same key.
pub open spec fn distinct_keys(entries: Seq<(Seq<char>, JsonView)>) -> bool {
    forall|i: int, j: int|
        0 <= i < j < entries.len() ==> (#[trigger] entries[i]).0 != (#[trigger] entries[j]).0
}

/// The index of the first entry with the given key, or the number of entries
/// where there is none.
pub open spec fn key_index(entries: Seq<(Seq<char>, JsonView)>, key: Seq<char>) -> int
    decreases entries.len(),
{
    if entries.len() == 0 || entries[0].0 == key {
        0
    } else {
        1 + key_index(entries.drop_first(), key)
    }
}

/// The entries after `key` has been given `value`: in the place of the entry
/// with that key where there is one, else at the end.
pub open spec fn insert_entry(
    entries: Seq<(Seq<char>, JsonView)>,
    key: Seq<char>,
    value: JsonView,
) -> Seq<(Seq<char>, JsonView)> {
    let i = key_index(entries, key);
    if i < entries.len() {
        entries.update(i, (key, value))
    } else {
        entries.push((key, value))
    }
}

/// The value that `key` had, if any.
pub open spec fn entry_value(entries: Seq<(Seq<char>, JsonView)>, key: Seq<char>) -> Option<
    JsonView,
> {
    let i = key_index(entries, key);
    if i < entries.len() {
        Some(entries[i].1)
    } else {
        None
    }
}

/// The index of the first entry with a key lies within the entries or just
/// behind them; the entry there has the key, and none before it has.
pub proof fn lemma_key_index(entries: Seq<(Seq<char>, JsonView)>, key: Seq<char>)
    ensures
        0 <= key_index(entries, key) <= entries.len(),
        key_index(entries, key) < entries.len() ==> entries[key_index(entries, key)].0 == key,
        forall|i: int| 0 <= i < key_index(entries, key) ==> (#[trigger] entries[i]).0 != key,
    decreases entries.len(),
{
    if entries.len() == 0 || entries[0].0 == key {
    } else {
        let tail = entries.drop_first();
        lemma_key_index(tail, key);
        assert forall|i: int| 0 <= i < key_index(entries, key) implies (#[trigger] entries[i]).0
            != key by {
            if i > 0 {
                assert(tail[i - 1] == entries[i]);
            }
        }
    }
}

/// Giving a key a value keeps the order of the entries. Every entry that was
/// there keeps its place and its key, and all but the one with the given key
/// keep their value; an entry with a new key comes last.
pub proof fn lemma_insert_keeps_order(
    entries: Seq<(Seq<char>, JsonView)>,
    key: Seq<char>,
    value: JsonView,
)
    ensures
        ({
            let at = key_index(entries, key);
            let after = insert_entry(entries, key, value);
            &&& 0 <= at <= entries.len()
            &&& after.len() == if at < entries.len() {
                entries.len()
            } else {
                entries.len() + 1
            }
            &&& after[at] == (key, value)
            &&& forall|i: int| 0 <= i < entries.len() ==> (#[trigger] after[i]).0 == entries[i].0
            &&& forall|i: int| 0 <= i < entries.len() && i != at ==> #[trigger] after[i] == entries[i]
        }),
{
    lemma_key_index(entries, key);
}

/// Giving a key a value leaves no key twice where none was there twice.
pub proof fn lemma_insert_keeps_distinct(
    entries: Seq<(Seq<char>, JsonView)>,
    key: Seq<char>,
    value: JsonView,
)
    requires
        distinct_keys(entries),
    ensures
        distinct_keys(insert_entry(entries, key, value)),
{
    lemma_key_index(entries, key);
    let at = key_index(entries, key);
    let after = insert_entry(entries, key, value);
    assert forall|i: int, j: int| 0 <= i < j < after.len() implies (#[trigger] after[i]).0
        != (#[trigger] after[j]).0 by {
        if at < entries.len() {
            assert(after[i].0 == entries[i].0);
            assert(after[j].0 == entries[j].0);
        } else if j < entries.len() {
            assert(after[i] == entries[i]);
            assert(after[j] == entries[j]);
        } else {
            assert(after[i] == entries[i]);
        }
    }
}

/// The view of a value that may be absent.
pub open spec fn value_view(value: Option<JsonValue>) -> Option<JsonView> {
    match value {
        Some(v) => Some(v@),
        None => None,
    }
}

/// An object: a map from keys to values that keeps the order in which the
/// keys were first inserted. It holds an `IndexMap`, which the verifier does
/// not look into: what it holds is named by `object_entries`.
#[verifier::external_body]
#[derive(Debug, PartialEq)]
pub struct JsonObject {
    entries: IndexMap<String, JsonValue>,
}

/// A JSON value. A number holds its decimal text.
#[derive(Debug, PartialEq)]
pub enum JsonValue {
    Object(JsonObject),
    Array(JsonArray),
    String(String),
    Number(String),
    True,
    False,
    Null,
}

/// An array of values.
pub type JsonArray = Vec<JsonValue>;

impl View for JsonValue {
    type V = JsonView;

    open spec fn view(&self) -> JsonView
        decreases self,
    {
        match self {
            JsonValue::Object(object) => JsonView::Object(object_entries(*object)),
            JsonValue::Array(items) => JsonView::Array(
                Seq::new(
                    items@.len(),
                    |i: int|
                        if 0 <= i < items@.len() {
                            items@[i].view()
                        } else {
                            JsonView::Null
                        },
                ),
            ),
            JsonValue::String(text) => JsonView::String(text@),
            JsonValue::Number(text) => JsonView::Number(text@),
            JsonValue::True => JsonView::True,
            JsonValue::False => JsonView::False,
            JsonValue::Null => JsonView::Null,
        }
    }
}

/// `IndexMap::new` makes a map without entries.
#[verifier::external_body]
fn map_new() -> (object: JsonObject)
    ensures
        object_entries(object) == Seq::<(Seq<char>, JsonView)>::empty(),
{
    JsonObject { entries: IndexMap::new() }
}

/// `IndexMap::insert` gives the key the value. Where the map has the key, the
/// entry keeps its place and the value that it had is returned; where it has
/// not, the entry comes last.
#[verifier::external_body]
fn map_insert(object: &mut JsonObject, key: String, value: JsonValue) -> (previous: Option<
    JsonValue,
>)
    ensures
        object_entries(*final(object)) == insert_entry(object_entries(*old(object)), key@, value@),
        value_view(previous) == entry_value(object_entries(*old(object)), key@),
{
    object.entries.insert(key, value)
}

/// `IndexMap::len` gives the number of entries.
#[verifier::external_body]
fn map_len(object: &JsonObject) -> (len: usize)
    ensures
        len == object_entries(*object).len(),
{
    object.entries.len()
}

/// `IndexMap::get_index` gives the entry at a place in the order, and none
/// from the number of entries on.
#[verifier::external_body]
fn map_get_index(object: &JsonObject, index: usize) -> (entry: Option<(&String, &JsonValue)>)
    ensures
        entry is Some <==> index < object_entries(*object).len(),
        entry matches Some(e) ==> e.0@ == object_entries(*object)[index as int].0 && e.1@
            == object_entries(*object)[index as int].1,
{
    object.entries.get_index(index)
}

impl View for JsonObject {
    type V = Seq<(Seq<char>, JsonView)>;

    open spec fn view(&self) -> Seq<(Seq<char>, JsonView)> {
        object_entries(*self)
    }
}

impl JsonObject {
    /// An object without entries.
    pub fn new() -> (object: Self)
        ensures
            object@ == Seq::<(Seq<char>, JsonView)>::empty(),
    {
        map_new()
    }

    /// Gives `key` the value `value`, and returns the value that it had. An
    /// entry that is there keeps its place; a new one comes last.
    pub fn insert(&mut self, key: String, value: JsonValue) -> (previous: Option<JsonValue>)
        ensures
            final(self)@ == insert_entry(old(self)@, key@, value@),
            value_view(previous) == entry_value(old(self)@, key@),
    {
        map_insert(self, key, value)
    }

    /// The number of entries.
    pub fn len(&self) -> (len: usize)
        ensures
            len == self@.len(),
    {
        map_len(self)
    }

    /// The entry at `index` in the order of insertion, none from `len()` on.
    pub fn get_index(&self, index: usize) -> (entry: Option<(&String, &JsonValue)>)
        ensures
            entry is Some <==> index < self@.len(),
            entry matches Some(e) ==> e.0@ == self@[index as int].0 && e.1@
                == self@[index as int].1,
    {
        map_get_index(self, index)
    }
}

/// `n` spaces.
pub open spec fn spaces(n: nat) -> Seq<char> {
    Seq::new(n, |i: int| ' ')
}

/// What follows an item of a block: a comma and a line break, or the line
/// break alone after the last.
pub open spec fn separator(last: bool) -> Seq<char> {
    if last {
        seq!['\n']
    } else {
        seq![',', '\n']
    }
}

/// An object's key as it is rendered: in quotes, then a colon and a space.
pub open spec fn render_key(key: Seq<char>) -> Seq<char> {
    seq!['"'] + key + seq!['"', ':', ' ']
}

/// The text of a value at the indentation `indent`. A container opens on the
/// line it stands on, holds one item on each line two spaces further in, and
/// closes on a line of its own at `indent`. A string is its text between
/// quotes, a number its decimal text.
pub open spec fn render(v: JsonView, indent: nat) -> Seq<char>
    decreases v, 0nat,
{
    match v {
        JsonView::Object(entries) => seq!['{', '\n'] + render_entries(entries, indent + 2, 0)
            + spaces(indent) + seq!['}'],
        JsonView::Array(items) => seq!['[', '\n'] + render_items(items, indent + 2, 0) + spaces(
            indent,
        ) + seq![']'],
        JsonView::String(text) => seq!['"'] + text + seq!['"'],
        JsonView::Number(text) => text,
        JsonView::True => seq!['t', 'r', 'u', 'e'],
        JsonView::False => seq!['f', 'a', 'l', 's', 'e'],
        JsonView::Null => seq!['n', 'u', 'l', 'l'],
    }
}

/// The lines of the items of an array from the item `from` on, in their
/// order, each at the indentation `indent`.
pub open spec fn render_items(items: Seq<JsonView>, indent: nat, from: int) -> Seq<char>
    decreases items, items.len() - from,
{
    if 0 <= from < items.len() {
        spaces(indent) + render(items[from], indent) + separator(from == items.len() - 1)
            + render_items(items, indent, from + 1)
    } else {
        Seq::empty()
    }
}

/// The lines of the entries of an object from the entry `from` on, in their
/// order, each at the indentation `indent`.
pub open spec fn render_entries(
    entries: Seq<(Seq<char>, JsonView)>,
    indent: nat,
    from: int,
) -> Seq<char>
    decreases entries, entries.len() - from,
{
    if 0 <= from < entries.len() {
        spaces(indent) + render_key(entries[from].0) + render(entries[from].1, indent)
            + separator(from == entries.len() - 1) + render_entries(entries, indent, from + 1)
    } else {
        Seq::empty()
    }
}

/// The entry `i` of an object is smaller than the object, and its line
/// starts the lines from `i` on.
pub proof fn lemma_object_entry(entries: Seq<(Seq<char>, JsonView)>, i: int, indent: nat)
    requires
        0 <= i < entries.len(),
    ensures
        decreases_to!(JsonView::Object(entries) => entries[i].1),
        render_entries(entries, indent, i) == spaces(indent) + render_key(entries[i].0) + render(
            entries[i].1,
            indent,
        ) + separator(i == entries.len() - 1) + render_entries(entries, indent, i + 1),
{
    let v = JsonView::Object(entries);
    assert(v->Object_0 == entries);
    assert(decreases_to!(v => v->Object_0));
    assert(decreases_to!(entries => entries[i]));
    assert(decreases_to!(entries[i] => entries[i].1));
}

/// The item `i` of an array is smaller than the array, and its line starts
/// the lines from `i` on.
pub proof fn lemma_array_item(items: Seq<JsonView>, i: int, indent: nat)
    requires
        0 <= i < items.len(),
    ensures
        decreases_to!(JsonView::Array(items) => items[i]),
        render_items(items, indent, i) == spaces(indent) + render(items[i], indent) + separator(
            i == items.len() - 1,
        ) + render_items(items, indent, i + 1),
{
    let v = JsonView::Array(items);
    assert(v->Array_0 == items);
    assert(decreases_to!(v => v->Array_0));
    assert(decreases_to!(items => items[i]));
}

impl JsonValue {
    /// The text of the value at the indentation `indent`.
    pub fn format(&self, indent: usize) -> (text: String)
        ensures
            text@ == render(self@, indent as nat),
    {
        let mut margin = String::new();
        Self::push_indent(&mut margin, indent);
        let mut formatted = String::new();
        assert(margin@ =~= spaces(indent as nat));
        self.format_value(margin.as_str(), &mut formatted);
        assert(Seq::<char>::empty() + render(self@, indent as nat) =~= render(
            self@,
            indent as nat,
        ));
        formatted
    }

    /// Appends the text of the value, where `margin` is the indentation of
    /// the line that the value stands on.
    fn format_value(&self, margin: &str, formatted: &mut String)
        requires
            margin@ == spaces(margin@.len()),
        ensures
            final(formatted)@ == old(formatted)@ + render(self@, margin@.len()),
        decreases self@,
    {
        let ghost before = formatted@;
        let ghost indent = margin@.len();
        proof {
            reveal_strlit("{\n");
            reveal_strlit("[\n");
            reveal_strlit("}");
            reveal_strlit("]");
            reveal_strlit("true");
            reveal_strlit("false");
            reveal_strlit("null");
        }
        match self {
            JsonValue::Object(obj) => {
                let ghost entries = obj@;
                let inner = Self::inner_margin(margin);
                Self::push_str(formatted, "{\n");
                let n = obj.len();
                let mut i: usize = 0;
                while i < n
                    invariant
                        i <= n,
                        n == entries.len(),
                        entries == obj@,
                        self@ == JsonView::Object(entries),
                        inner@ == spaces(indent + 2),
                        formatted@ + render_entries(entries, indent + 2, i as int) == before
                            + seq!['{', '\n'] + render_entries(entries, indent + 2, 0),
                    decreases n - i,
                {
                    let ghost line = formatted@;
                    let ghost tail = render_entries(entries, indent + 2, i + 1);
                    proof {
                        lemma_object_entry(entries, i as int, indent + 2);
                        reveal_strlit("\"");
                        reveal_strlit(": ");
                        reveal_strlit(",\n");
                        reveal_strlit("\n");
                        assert("\""@ =~= seq!['"']);
                        assert(": "@ =~= seq![':', ' ']);
                        assert(",\n"@ =~= seq![',', '\n']);
                        assert("\n"@ =~= seq!['\n']);
                    }
                    let (key, value) = obj.get_index(i).unwrap();
                    Self::push_str(formatted, inner.as_str());
                    Self::push_str(formatted, "\"");
                    Self::push_str(formatted, key.as_str());
                    Self::push_str(formatted, "\"");
                    Self::push_str(formatted, ": ");
                    value.format_value(inner.as_str(), formatted);
                    if i < n - 1 {
                        Self::push_str(formatted, ",\n");
                    } else {
                        Self::push_str(formatted, "\n");
                    }
                    assert(formatted@ + tail =~= line + render_entries(
                        entries,
                        indent + 2,
                        i as int,
                    ));
                    i += 1;
                }
                Self::push_str(formatted, margin);
                Self::push_str(formatted, "}");
                assert(formatted@ =~= before + render(self@, indent));
            },
            JsonValue::Array(array) => {
                let ghost items = self@->Array_0;
                let inner = Self::inner_margin(margin);
                Self::push_str(formatted, "[\n");
                let n = array.len();
                let mut i: usize = 0;
                while i < n
                    invariant
                        i <= n,
                        n == items.len(),
                        n == array@.len(),
                        forall|j: int| 0 <= j < n ==> items[j] == array@[j]@,
                        self@ == JsonView::Array(items),
                        inner@ == spaces(indent + 2),
                        formatted@ + render_items(items, indent + 2, i as int) == before
                            + seq!['[', '\n'] + render_items(items, indent + 2, 0),
                    decreases n - i,
                {
                    let ghost line = formatted@;
                    let ghost tail = render_items(items, indent + 2, i + 1);
                    proof {
                        lemma_array_item(items, i as int, indent + 2);
                        reveal_strlit(",\n");
                        reveal_strlit("\n");
                        assert(",\n"@ =~= seq![',', '\n']);
                        assert("\n"@ =~= seq!['\n']);
                    }
                    Self::push_str(formatted, inner.as_str());
                    array[i].format_value(inner.as_str(), formatted);
                    if i < n - 1 {
                        Self::push_str(formatted, ",\n");
                    } else {
                        Self::push_str(formatted, "\n");
                    }
                    assert(formatted@ + tail =~= line + render_items(items, indent + 2, i as int));
                    i += 1;
                }
                Self::push_str(formatted, margin);
                Self::push_str(formatted, "]");
                assert(formatted@ =~= before + render(self@, indent));
            },
            JsonValue::String(text) => {
                formatted.push('"');
                Self::push_str(formatted, text.as_str());
                formatted.push('"');
                assert(formatted@ =~= before + render(self@, indent));
            },
            JsonValue::Number(text) => {
                Self::push_str(formatted, text.as_str());
            },
            JsonValue::True => {
                Self::push_str(formatted, "true");
                assert(formatted@ =~= before + render(self@, indent));
            },
            JsonValue::False => {
                Self::push_str(formatted, "false");
                assert(formatted@ =~= before + render(self@, indent));
            },
            JsonValue::Null => {
                Self::push_str(formatted, "null");
                assert(formatted@ =~= before + render(self@, indent));
            },
        }
    }

    /// The margin of the lines within a container that stands on a line
    /// with the margin `margin`: two spaces more.
    fn inner_margin(margin: &str) -> (inner: String)
        requires
            margin@ == spaces(margin@.len()),
        ensures
            inner@ == spaces(margin@.len() + 2),
    {
        let mut inner = margin.to_owned();
        Self::push_indent(&mut inner, 2);
        assert(inner@ =~= spaces(margin@.len() + 2));
        inner
    }

    /// Appends `text`.
    fn push_str(formatted: &mut String, text: &str)
        ensures
            final(formatted)@ == old(formatted)@ + text@,
    {
        formatted.append(text);
    }

    /// Appends `indent` spaces.
    fn push_indent(formatted: &mut String, indent: usize)
        ensures
            final(formatted)@ == old(formatted)@ + spaces(indent as nat),
    {
        let mut i: usize = 0;
        while i < indent
            invariant
                i <= indent,
                formatted@ == old(formatted)@ + spaces(i as nat),
            decreases indent - i,
        {
            proof {
                reveal_strlit(" ");
                assert(formatted@ + " "@ =~= old(formatted)@ + spaces((i + 1) as nat));
            }
            Self::push_str(formatted, " ");
            i += 1;
        }
    }
}

} // verus!
