//! The parts of `toml_edit` that the profile logic relies on, and the model
//! in which the contracts speak of them.
//!
//! A table is modelled by its slots: the key/item pairs that its ordered map
//! holds, in order. A slot whose item is `Item::None` (here `Node::Empty`) is kept by
//! the map but neither read nor rendered by `toml_edit`.
use vstd::prelude::*;
use toml_edit::{ArrayOfTables, Decor, Document, Item, Key, Table, TomlError, Value};

verus! {

#[verifier::external_type_specification]
#[verifier::external_body]
pub struct ExDocument(Document);

#[verifier::external_type_specification]
#[verifier::external_body]
pub struct ExTable(Table);

#[verifier::external_type_specification]
#[verifier::external_body]
pub struct ExValue(Value);

#[verifier::external_type_specification]
#[verifier::external_body]
pub struct ExArrayOfTables(ArrayOfTables);

#[verifier::external_type_specification]
#[verifier::external_body]
pub struct ExKey(Key);

#[verifier::external_type_specification]
#[verifier::external_body]
pub struct ExDecor(Decor);

#[verifier::external_type_specification]
#[verifier::external_body]
pub struct ExTomlError(TomlError);

/// An item of a table: nothing, a value, a table or an array of tables.
pub enum Node {
    Empty,
    Value(Value),
    Table(Table),
    Tables(ArrayOfTables),
}

/// The slots of a table, in the order of its map.
pub uninterp spec fn table_slots(t: Table) -> Seq<(Seq<char>, Node)>;

/// The formatted key of each slot of a table, in the same order as the
/// slots: the key's text with the blank lines and comments before its line
/// and the spacing around it.
pub uninterp spec fn table_keys(t: Table) -> Seq<Key>;

/// The rest of a table besides its slots and its dotted flag: the
/// formatting around its header, whether it is implicit, its position in
/// the document, and its span in the source.
pub uninterp spec fn table_frame(t: Table) -> (Decor, bool, Option<usize>, Option<(usize, usize)>);

/// Whether a table renders its child tables as dotted headers.
pub uninterp spec fn table_dotted(t: Table) -> bool;

/// The root table of a document.
pub uninterp spec fn document_root(d: Document) -> Table;

/// Whether the root item of a document is a table, as toml_edit's parser
/// and `Document::new` make it.
pub uninterp spec fn root_is_table(d: Document) -> bool;

/// Whether TOML text is accepted by the parser.
pub uninterp spec fn toml_accepts(text: Seq<char>) -> bool;

/// The text that the parse of accepted TOML text renders to.
pub uninterp spec fn reparsed_text(text: Seq<char>) -> Seq<char>;

/// The parts of a document besides its root table: its trailing whitespace
/// and comments (where held as text), the source it keeps, and its span.
pub uninterp spec fn document_rest(d: Document) -> (Option<Seq<char>>, Option<Seq<char>>, Option<(usize, usize)>);

/// The value that `From<bool> for Value` makes.
pub uninterp spec fn bool_toml(b: bool) -> Value;

/// The value that `From<i64> for Value` makes.
pub uninterp spec fn integer_toml(n: int) -> Value;

/// The value that `From<&str> for Value` makes.
pub uninterp spec fn string_toml(s: Seq<char>) -> Value;

/// `v` with its formatting replaced by `d`.
pub uninterp spec fn redecorated(v: Value, d: Decor) -> Value;

/// The text that a document renders to.
pub uninterp spec fn document_text(d: Document) -> Seq<char>;

/// The text of a key.
pub uninterp spec fn key_text(k: Key) -> Seq<char>;

/// The formatting around a value: the spacing after `=` and before it, and
/// a trailing comment.
pub uninterp spec fn value_decor(v: Value) -> Decor;

/// What a value holds, as far as this library reads it.
pub uninterp spec fn value_datum(v: Value) -> Datum;

/// The content of a value.
pub enum Datum {
    Bool(bool),
    Integer(int),
    Text(Seq<char>),
    Other,
}

/// Whether a slot with key `k` exists, at index `i`.
pub open spec fn slot_at(s: Seq<(Seq<char>, Node)>, k: Seq<char>, i: int) -> bool {
    0 <= i < s.len() && s[i].0 == k
}

pub open spec fn has_slot(s: Seq<(Seq<char>, Node)>, k: Seq<char>) -> bool {
    exists|i: int| slot_at(s, k, i)
}

/// The slots that `toml_edit` reads: those whose item is not `Item::None`.
pub open spec fn live(s: Seq<(Seq<char>, Node)>) -> Seq<(Seq<char>, Node)>
    decreases s.len(),
{
    if s.len() == 0 {
        s
    } else if s.last().1 is Empty {
        live(s.drop_last())
    } else {
        live(s.drop_last()).push(s.last())
    }
}

/// The formatted keys of the slots that are read.
pub open spec fn live_keys(keys: Seq<Key>, s: Seq<(Seq<char>, Node)>) -> Seq<Key>
    decreases s.len(),
{
    if s.len() == 0 || keys.len() == 0 {
        Seq::empty()
    } else if s.last().1 is Empty {
        live_keys(keys.drop_last(), s.drop_last())
    } else {
        live_keys(keys.drop_last(), s.drop_last()).push(keys.last())
    }
}

/// No two slots share a key.
pub open spec fn keys_distinct(s: Seq<(Seq<char>, Node)>) -> bool {
    forall|i: int, j: int| 0 <= i < s.len() && 0 <= j < s.len() && i != j ==> s[i].0 != s[j].0
}

/// Relies on `Document::from_str`: parses TOML text, keeping its formatting.
/// The parser starts from `Document::default()`, whose root is a table, and
/// reaches the root only through `Document::as_table_mut`.
#[verifier::external_body]
pub(crate) fn parse_document(text: &str) -> (r: Result<Document, TomlError>)
    ensures
        r is Ok == toml_accepts(text@),
        r is Ok ==> document_text(r->Ok_0) == reparsed_text(text@),
        r is Ok ==> keys_distinct(table_slots(document_root(r->Ok_0))),
        r is Ok ==> root_is_table(r->Ok_0),
{
    text.parse::<Document>()
}

/// Relies on `Display for Document`: renders the document as text.
#[verifier::external_body]
pub(crate) fn render_document(d: &Document) -> (r: String)
    requires
        root_is_table(*d),
    ensures
        r@ == document_text(*d),
{
    d.to_string()
}

/// Relies on `Document::as_table_mut`: swaps the root table for `t`. That
/// method panics where the root item is not a table.
#[verifier::external_body]
pub(crate) fn swap_root(d: &mut Document, t: Table) -> (r: Table)
    requires
        root_is_table(*old(d)),
    ensures
        root_is_table(*final(d)),
        document_rest(*final(d)) == document_rest(*old(d)),
        keys_distinct(table_slots(r)),
        r == document_root(*old(d)),
        document_root(*final(d)) == t,
{
    std::mem::replace(d.as_table_mut(), t)
}

/// Relies on `Document::as_table`: the root table. That method panics where
/// the root item is not a table.
#[verifier::external_body]
pub(crate) fn root_of(d: &Document) -> (r: &Table)
    requires
        root_is_table(*d),
    ensures
        *r == document_root(*d),
        keys_distinct(table_slots(*r)),
{
    d.as_table()
}

/// Relies on `Table::new`: an empty table.
#[verifier::external_body]
pub(crate) fn new_table() -> (r: Table)
    ensures
        table_slots(r) == Seq::<(Seq<char>, Node)>::empty(),
        table_keys(r) == Seq::<Key>::empty(),
        !table_dotted(r),
{
    Table::new()
}

/// Relies on `Table::set_dotted`, which changes only that flag.
#[verifier::external_body]
pub(crate) fn set_dotted(t: &mut Table, yes: bool)
    ensures
        table_slots(*final(t)) == table_slots(*old(t)),
        table_keys(*final(t)) == table_keys(*old(t)),
        table_frame(*final(t)) == table_frame(*old(t)),
        table_dotted(*final(t)) == yes,
        keys_distinct(table_slots(*final(t))),
{
    t.set_dotted(yes)
}

/// Relies on `Table::clear`: all slots go.
#[verifier::external_body]
pub(crate) fn clear_table(t: &mut Table)
    ensures
        table_slots(*final(t)) == Seq::<(Seq<char>, Node)>::empty(),
        table_keys(*final(t)) == Seq::<Key>::empty(),
        table_frame(*final(t)) == table_frame(*old(t)),
        table_dotted(*final(t)) == table_dotted(*old(t)),
{
    t.clear()
}

/// Relies on `Table::entry(key).or_insert(..)`: the slot with this key has
/// its item replaced in place, its formatted key kept, or, where no slot has
/// the key, a new one is appended with a key of that text (`Key::new`).
/// Returns the item that was there (`Node::Empty` for a new slot).
#[verifier::external_body]
pub(crate) fn replace_slot(t: &mut Table, key: &str, item: Node) -> (r: Node)
    ensures
        table_dotted(*final(t)) == table_dotted(*old(t)),
        table_frame(*final(t)) == table_frame(*old(t)),
        keys_distinct(table_slots(*final(t))),
        r is Table ==> keys_distinct(table_slots(r->Table_0)),
        forall|i: int| #[trigger] slot_at(table_slots(*old(t)), key@, i) ==> {
            &&& r == table_slots(*old(t))[i].1
            &&& table_slots(*final(t)) == table_slots(*old(t)).update(i, (key@, item))
            &&& table_keys(*final(t)) == table_keys(*old(t))
        },
        !has_slot(table_slots(*old(t)), key@) ==> {
            &&& r is Empty
            &&& table_slots(*final(t)) == table_slots(*old(t)).push((key@, item))
            &&& table_keys(*final(t)) == table_keys(*old(t)).push(table_keys(*final(t)).last())
            &&& key_text(table_keys(*final(t)).last()) == key@
        },
{
    let item = match item {
        Node::Empty => Item::None,
        Node::Value(v) => Item::Value(v),
        Node::Table(t) => Item::Table(t),
        Node::Tables(a) => Item::ArrayOfTables(a),
    };
    match std::mem::replace(t.entry(key).or_insert(Item::None), item) {
        Item::None => Node::Empty,
        Item::Value(v) => Node::Value(v),
        Item::Table(t) => Node::Table(t),
        Item::ArrayOfTables(a) => Node::Tables(a),
    }
}

/// Relies on `Table::insert_formatted`: as `replace_slot`, but the slot
/// takes `key` with its formatting, in place or appended.
#[verifier::external_body]
pub(crate) fn insert_formatted(t: &mut Table, key: &Key, item: Node)
    ensures
        table_dotted(*final(t)) == table_dotted(*old(t)),
        table_frame(*final(t)) == table_frame(*old(t)),
        keys_distinct(table_slots(*final(t))),
        forall|i: int| #[trigger] slot_at(table_slots(*old(t)), key_text(*key), i) ==> {
            &&& table_slots(*final(t)) == table_slots(*old(t)).update(i, (key_text(*key), item))
            &&& table_keys(*final(t)) == table_keys(*old(t)).update(i, *key)
        },
        !has_slot(table_slots(*old(t)), key_text(*key)) ==> {
            &&& table_slots(*final(t)) == table_slots(*old(t)).push((key_text(*key), item))
            &&& table_keys(*final(t)) == table_keys(*old(t)).push(*key)
        },
{
    let item = match item {
        Node::Empty => Item::None,
        Node::Value(v) => Item::Value(v),
        Node::Table(t) => Item::Table(t),
        Node::Tables(a) => Item::ArrayOfTables(a),
    };
    t.insert_formatted(key, item);
}

/// Relies on `Table::iter` and `Table::get_key_value`: the slots that are
/// read, in order, with their formatted keys and copies of their items.
#[verifier::external_body]
pub(crate) fn live_entries(t: &Table) -> (r: Vec<(Key, Node)>)
    ensures
        r@.len() == live(table_slots(*t)).len(),
        r@.len() == live_keys(table_keys(*t), table_slots(*t)).len(),
        forall|i: int| 0 <= i < r@.len() ==> {
            &&& key_text(#[trigger] r@[i].0) == live(table_slots(*t))[i].0
            &&& r@[i].0 == live_keys(table_keys(*t), table_slots(*t))[i]
            &&& r@[i].1 == live(table_slots(*t))[i].1
            &&& r@[i].1 is Table ==> keys_distinct(table_slots(r@[i].1->Table_0))
        },
        forall|i: int, j: int| 0 <= i < r@.len() && 0 <= j < r@.len() && i != j
            ==> key_text(#[trigger] r@[i].0) != key_text(#[trigger] r@[j].0),
{
    t.iter().flat_map(|(k, _)| t.get_key_value(k)).map(|(k, i)| {
        let node = match i.clone() {
            Item::None => Node::Empty,
            Item::Value(v) => Node::Value(v),
            Item::Table(t) => Node::Table(t),
            Item::ArrayOfTables(a) => Node::Tables(a),
        };
        (k.clone(), node)
    }).collect()
}

/// Relies on `Key::get`: the text of a key.
#[verifier::external_body]
pub(crate) fn key_str(k: &Key) -> (r: &str)
    ensures
        r@ == key_text(*k),
{
    k.get()
}

/// Relies on `From<bool> for Value`.
#[verifier::external_body]
pub(crate) fn bool_value(b: bool) -> (r: Value)
    ensures
        value_datum(r) == Datum::Bool(b),
        r == bool_toml(b),
{
    Value::from(b)
}

/// Relies on `From<i64> for Value`.
#[verifier::external_body]
pub(crate) fn integer_value(n: i64) -> (r: Value)
    ensures
        value_datum(r) == Datum::Integer(n as int),
        r == integer_toml(n as int),
{
    Value::from(n)
}

/// Relies on `From<&str> for Value`: a basic string.
#[verifier::external_body]
pub(crate) fn string_value(s: &str) -> (r: Value)
    ensures
        value_datum(r) == Datum::Text(s@),
        r == string_toml(s@),
{
    Value::from(s)
}

/// Relies on `Value::decor_mut` and `Value::decor`: `v` with the
/// formatting of `from`.
#[verifier::external_body]
pub(crate) fn with_decor_of(v: Value, from: &Value) -> (r: Value)
    ensures
        value_datum(r) == value_datum(v),
        value_decor(r) == value_decor(*from),
        r == redecorated(v, value_decor(*from)),
{
    let mut v = v;
    *v.decor_mut() = from.decor().clone();
    v
}

} // verus!
