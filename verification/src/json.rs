//! JSON values: read from text, changed, and written back.

use crate::text;
use vstd::prelude::*;

verus! {

/// A number as `serde_json` holds it.
#[verifier::external_type_specification]
#[verifier::external_body]
pub struct ExNumber(serde_json::Number);

/// A JSON value as `serde_json` holds it.
#[verifier::external_type_specification]
#[verifier::external_body]
pub struct ExValue(serde_json::Value);

/// What a JSON value says: its kind and its contents, an object without an
/// order among its keys.
pub enum Tree {
    Null,
    Bool(bool),
    Number(serde_json::Number),
    Text(Seq<char>),
    Array(Seq<Tree>),
    Object(Map<Seq<char>, Tree>),
}

/// A JSON value.
#[derive(Debug)]
pub enum Json {
    Null,
    Bool(bool),
    Number(serde_json::Number),
    Text(String),
    Array(Vec<Json>),
    Object(JsonObject),
}

/// A JSON object. Where a key stands more than once, its last value counts.
#[derive(Debug)]
pub struct JsonObject {
    pub fields: Vec<(String, Json)>,
}

/// What `json` says.
pub open spec fn tree_of(json: Json) -> Tree
    decreases json,
{
    match json {
        Json::Null => Tree::Null,
        Json::Bool(b) => Tree::Bool(b),
        Json::Number(n) => Tree::Number(n),
        Json::Text(s) => Tree::Text(s@),
        Json::Array(items) => Tree::Array(trees_of(items@)),
        Json::Object(object) => Tree::Object(fields_of(object.fields@)),
    }
}

/// What the items of an array say.
pub open spec fn trees_of(items: Seq<Json>) -> Seq<Tree>
    decreases items,
{
    if items.len() == 0 {
        seq![]
    } else {
        trees_of(items.drop_last()).push(tree_of(items.last()))
    }
}

/// What the fields of an object say.
pub open spec fn fields_of(fields: Seq<(String, Json)>) -> Map<Seq<char>, Tree>
    decreases fields,
{
    if fields.len() == 0 {
        Map::empty()
    } else {
        fields_of(fields.drop_last()).insert(fields.last().0@, tree_of(fields.last().1))
    }
}

impl View for Json {
    type V = Tree;

    open spec fn view(&self) -> Tree {
        tree_of(*self)
    }
}

impl View for JsonObject {
    type V = Map<Seq<char>, Tree>;

    open spec fn view(&self) -> Map<Seq<char>, Tree> {
        fields_of(self.fields@)
    }
}

/// What a value of `serde_json` says.
pub uninterp spec fn value_tree(value: serde_json::Value) -> Tree;

/// What `serde_json` reads in a text, if the text is one JSON value.
pub uninterp spec fn parsed_tree(text: Seq<char>) -> Option<Tree>;

/// What `serde_json` writes for a value. It is built to keep the keys of an
/// object sorted, so that what it writes does not depend on how the object came
/// about.
pub uninterp spec fn json_text(tree: Tree) -> Seq<char>;

/// `serde_json::from_str` into a `serde_json::Value`: the value that the text
/// says, or nothing where `serde_json` does not take the text for JSON. What it
/// reads is named, not spelled out.
#[verifier::external_body]
fn parse_value(text: &str) -> (value: Option<serde_json::Value>)
    ensures
        value matches Some(v) ==> parsed_tree(text@) == Some(value_tree(v)),
        value is None ==> parsed_tree(text@) is None,
{
    serde_json::from_str::<serde_json::Value>(text).ok()
}

/// Whether `serde_json` takes a text for one JSON value.
pub uninterp spec fn well_formed_json(text: Seq<char>) -> bool;

/// Whether `c` may stand between the parts of a JSON text.
pub open spec fn json_space(c: char) -> bool {
    c == ' ' || c == '\n' || c == '\t' || c == '\r'
}

/// `text` without the JSON white space around it.
pub open spec fn json_core(text: Seq<char>) -> Seq<char> {
    text::stripped(text, |c: char| json_space(c))
}

/// `serde_json::value::RawValue::from_string`: the text without the white space
/// around it, if it is one JSON value. Which texts are is named, not spelled
/// out.
#[verifier::external_body]
pub(crate) fn raw_json(text: String) -> (raw: Option<String>)
    ensures
        raw is Some <==> well_formed_json(text@),
        raw matches Some(inner) ==> inner@ == json_core(text@),
{
    serde_json::value::RawValue::from_string(text).ok().map(|raw| raw.get().to_owned())
}

/// `serde_json::value::to_raw_value` of a `serde_json::Value`, as text. It fails
/// only for a map with keys that are no strings, or where a type refuses to be
/// serialized: neither occurs in a `serde_json::Value`. What it writes is named,
/// not spelled out.
#[verifier::external_body]
fn render_value(value: &serde_json::Value) -> (text: Option<String>)
    ensures
        text is Some,
        text->0@ == json_text(value_tree(*value)),
{
    serde_json::value::to_raw_value(value).ok().map(|raw| raw.get().to_owned())
}

/// Converts a `serde_json::Value`, kind by kind.
#[verifier::external_body]
fn json_from_value(value: serde_json::Value) -> (json: Json)
    ensures
        json@ == value_tree(value),
{
    match value {
        serde_json::Value::Null => Json::Null,
        serde_json::Value::Bool(b) => Json::Bool(b),
        serde_json::Value::Number(n) => Json::Number(n),
        serde_json::Value::String(s) => Json::Text(s),
        serde_json::Value::Array(a) => Json::Array(a.into_iter().map(json_from_value).collect()),
        serde_json::Value::Object(m) => Json::Object(
            JsonObject { fields: m.into_iter().map(|(k, v)| (k, json_from_value(v))).collect() },
        ),
    }
}

/// Converts to a `serde_json::Value`, kind by kind. The fields of an object go
/// into a `serde_json::Map` one by one, with `serde_json::Map::insert`: where the
/// map has the key already, the value under it is replaced, so that the last
/// value of a key stays.
#[verifier::external_body]
fn value_from_json(json: Json) -> (value: serde_json::Value)
    ensures
        value_tree(value) == json@,
{
    match json {
        Json::Null => serde_json::Value::Null,
        Json::Bool(b) => serde_json::Value::Bool(b),
        Json::Number(n) => serde_json::Value::Number(n),
        Json::Text(s) => serde_json::Value::String(s),
        Json::Array(a) => serde_json::Value::Array(a.into_iter().map(value_from_json).collect()),
        Json::Object(o) => {
            let mut map = serde_json::Map::new();
            for (k, v) in o.fields {
                map.insert(k, value_from_json(v));
            }
            serde_json::Value::Object(map)
        },
    }
}

/// `Clone::clone` of a `serde_json::Number`: the same number.
#[verifier::external_body]
fn copy_number(number: &serde_json::Number) -> (copy: serde_json::Number)
    ensures
        copy == *number,
{
    number.clone()
}

impl Json {
    /// The value that `text` says, if it is one JSON value.
    pub fn parse(text: &str) -> (json: Option<Json>)
        ensures
            json matches Some(j) ==> parsed_tree(text@) == Some(j@),
            json is None ==> parsed_tree(text@) is None,
    {
        match parse_value(text) {
            Some(value) => Some(json_from_value(value)),
            None => None,
        }
    }

    /// The value as text.
    pub fn render(self) -> (text: Option<String>)
        ensures
            text is Some,
            text->0@ == json_text(self@),
    {
        let value = value_from_json(self);
        render_value(&value)
    }

    /// The value that a `serde_json::Value` holds.
    pub fn from_value(value: serde_json::Value) -> (json: Json)
        ensures
            json@ == value_tree(value),
    {
        json_from_value(value)
    }

    /// The value as a `serde_json::Value`.
    pub fn into_value(self) -> (value: serde_json::Value)
        ensures
            value_tree(value) == self@,
    {
        value_from_json(self)
    }

    /// A second copy of the value.
    pub fn copy(&self) -> (copy: Json)
        ensures
            copy@ == self@,
        decreases self,
    {
        match self {
            Json::Null => Json::Null,
            Json::Bool(b) => Json::Bool(*b),
            Json::Number(n) => Json::Number(copy_number(n)),
            Json::Text(s) => Json::Text(s.clone()),
            Json::Array(items) => {
                let mut copies: Vec<Json> = Vec::new();
                let mut i: usize = 0;
                while i < items.len()
                    invariant
                        i <= items.len(),
                        *self == Json::Array(*items),
                        trees_of(copies@) == trees_of(items@.take(i as int)),
                    decreases items.len() - i,
                {
                    let ghost before = copies@;
                    assert(decreases_to!(self => self->Array_0));
                    assert(decreases_to!(*items => items@));
                    assert(decreases_to!(items@ => items@[i as int]));
                    copies.push(items[i].copy());
                    proof {
                        assert(copies@.drop_last() =~= before);
                        assert(items@.take(i + 1).drop_last() =~= items@.take(i as int));
                    }
                    i = i + 1;
                }
                assert(items@.take(i as int) =~= items@);
                Json::Array(copies)
            },
            Json::Object(object) => {
                assert(decreases_to!(self => self->Object_0));
                Json::Object(object.copy())
            },
        }
    }
}

impl JsonObject {
    /// The object without fields.
    pub fn new() -> (object: JsonObject)
        ensures
            object@ == Map::<Seq<char>, Tree>::empty(),
    {
        JsonObject { fields: Vec::new() }
    }

    /// A second copy of the object.
    pub fn copy(&self) -> (copy: JsonObject)
        ensures
            copy@ == self@,
        decreases self,
    {
        let mut copies: Vec<(String, Json)> = Vec::new();
        let mut i: usize = 0;
        while i < self.fields.len()
            invariant
                i <= self.fields.len(),
                fields_of(copies@) == fields_of(self.fields@.take(i as int)),
            decreases self.fields.len() - i,
        {
            let ghost before = copies@;
            assert(decreases_to!(self => self.fields));
            assert(decreases_to!(self.fields => self.fields@));
            assert(decreases_to!(self.fields@ => self.fields@[i as int]));
            assert(decreases_to!(self.fields@[i as int] => self.fields@[i as int].1));
            copies.push((self.fields[i].0.clone(), self.fields[i].1.copy()));
            proof {
                assert(copies@.drop_last() =~= before);
                assert(self.fields@.take(i + 1).drop_last() =~= self.fields@.take(i as int));
            }
            i = i + 1;
        }
        assert(self.fields@.take(i as int) =~= self.fields@);
        JsonObject { fields: copies }
    }

    /// The place of the last field under `key`.
    fn position(&self, key: &str) -> (place: Option<usize>)
        ensures
            place matches Some(i) ==> {
                &&& i < self.fields.len()
                &&& self.fields@[i as int].0@ == key@
                &&& forall|j: int| i < j < self.fields.len() ==> self.fields@[j].0@ != key@
            },
            place is None ==> forall|j: int|
                0 <= j < self.fields.len() ==> self.fields@[j].0@ != key@,
    {
        let wanted: String = key.to_owned();
        let mut i: usize = self.fields.len();
        while i > 0
            invariant
                i <= self.fields.len(),
                wanted@ == key@,
                forall|j: int| i <= j < self.fields.len() ==> self.fields@[j].0@ != key@,
            decreases i,
        {
            i = i - 1;
            if self.fields[i].0 == wanted {
                return Some(i);
            }
        }
        None
    }

    /// The value under `key`, if there is one.
    pub fn get(&self, key: &str) -> (value: Option<&Json>)
        ensures
            value is Some <==> self@.contains_key(key@),
            value matches Some(json) ==> json@ == self@[key@],
    {
        match self.position(key) {
            Some(i) => {
                proof {
                    lemma_last_field_counts(self.fields@, i as int, key@);
                }
                Some(&self.fields[i].1)
            },
            None => {
                proof {
                    lemma_no_field_no_key(self.fields@, key@);
                }
                None
            },
        }
    }

    /// Puts `value` under `key`, in place of what stood there.
    pub fn set(&mut self, key: &str, value: Json)
        ensures
            final(self)@ == old(self)@.insert(key@, value@),
    {
        let field: (String, Json) = (key.to_owned(), value);
        match self.position(key) {
            Some(i) => {
                proof {
                    lemma_last_field_replaced(self.fields@, i as int, field);
                }
                self.fields.set(i, field);
            },
            None => {
                let ghost before = self.fields@;
                self.fields.push(field);
                assert(self.fields@.drop_last() =~= before);
            },
        }
    }
}

proof fn lemma_last_field_counts(fields: Seq<(String, Json)>, i: int, key: Seq<char>)
    requires
        0 <= i < fields.len(),
        fields[i].0@ == key,
        forall|j: int| i < j < fields.len() ==> fields[j].0@ != key,
    ensures
        fields_of(fields).contains_key(key),
        fields_of(fields)[key] == tree_of(fields[i].1),
    decreases fields.len(),
{
    if i < fields.len() - 1 {
        let rest = fields.drop_last();
        assert forall|j: int| i < j < rest.len() implies rest[j].0@ != key by {
            assert(fields[j].0@ != key);
        }
        lemma_last_field_counts(rest, i, key);
    }
}

proof fn lemma_no_field_no_key(fields: Seq<(String, Json)>, key: Seq<char>)
    requires
        forall|j: int| 0 <= j < fields.len() ==> fields[j].0@ != key,
    ensures
        !fields_of(fields).contains_key(key),
    decreases fields.len(),
{
    if fields.len() > 0 {
        let rest = fields.drop_last();
        assert forall|j: int| 0 <= j < rest.len() implies rest[j].0@ != key by {
            assert(fields[j].0@ != key);
        }
        lemma_no_field_no_key(rest, key);
    }
}

proof fn lemma_last_field_replaced(fields: Seq<(String, Json)>, i: int, field: (String, Json))
    requires
        0 <= i < fields.len(),
        fields[i].0@ == field.0@,
        forall|j: int| i < j < fields.len() ==> fields[j].0@ != field.0@,
    ensures
        fields_of(fields.update(i, field)) == fields_of(fields).insert(
            field.0@,
            tree_of(field.1),
        ),
    decreases fields.len(),
{
    let rest = fields.drop_last();
    if i == fields.len() - 1 {
        assert(fields.update(i, field).drop_last() =~= rest);
    } else {
        assert(fields.update(i, field).drop_last() =~= rest.update(i, field));
        assert forall|j: int| i < j < rest.len() implies rest[j].0@ != field.0@ by {
            assert(fields[j].0@ != field.0@);
        }
        lemma_last_field_replaced(rest, i, field);
    }
    assert(fields_of(fields.update(i, field)) =~= fields_of(fields).insert(
        field.0@,
        tree_of(field.1),
    ));
}

/// What a value says leaves nothing out of it: a text its characters, an array
/// its items one by one, and an object, under each of its keys, the last value
/// that stands there.
pub proof fn a_tree_says_all_that_a_value_holds(json: Json)
    ensures
        match json {
            Json::Null => json@ == Tree::Null,
            Json::Bool(b) => json@ == Tree::Bool(b),
            Json::Number(n) => json@ == Tree::Number(n),
            Json::Text(s) => json@ == Tree::Text(s@),
            Json::Array(items) => {
                &&& json@ is Array
                &&& json@->Array_0.len() == items.len()
                &&& forall|i: int|
                    0 <= i < items.len() ==> #[trigger] json@->Array_0[i] == items@[i]@
            },
            Json::Object(object) => {
                &&& json@ == Tree::Object(object@)
                &&& forall|key: Seq<char>| #[trigger]
                    object@.contains_key(key) <==> exists|i: int|
                        0 <= i < object.fields.len() && (#[trigger] object.fields@[i]).0@ == key
                &&& forall|i: int|
                    0 <= i < object.fields.len() && (forall|j: int|
                        i < j < object.fields.len() ==> (#[trigger] object.fields@[j]).0@
                            != object.fields@[i].0@) ==> object@[(
                    #[trigger] object.fields@[i]).0@] == object.fields@[i].1@
            },
        },
{
    match json {
        Json::Array(items) => {
            lemma_items_one_by_one(items@);
        },
        Json::Object(object) => {
            let fields = object.fields@;
            assert forall|key: Seq<char>| #[trigger]
                object@.contains_key(key) <==> exists|i: int|
                    0 <= i < fields.len() && (#[trigger] fields[i]).0@ == key by {
                lemma_keys_are_those_of_fields(fields, key);
            }
            assert forall|i: int|
                0 <= i < fields.len() && (forall|j: int|
                    i < j < fields.len() ==> (#[trigger] fields[j]).0@
                        != fields[i].0@) implies object@[(#[trigger] fields[i]).0@]
                == fields[i].1@ by {
                lemma_last_field_counts(fields, i, fields[i].0@);
            }
        },
        _ => {},
    }
}

proof fn lemma_items_one_by_one(items: Seq<Json>)
    ensures
        trees_of(items).len() == items.len(),
        forall|i: int| 0 <= i < items.len() ==> #[trigger] trees_of(items)[i] == tree_of(items[i]),
    decreases items.len(),
{
    if items.len() > 0 {
        lemma_items_one_by_one(items.drop_last());
        assert forall|i: int| 0 <= i < items.len() implies #[trigger] trees_of(items)[i]
            == tree_of(items[i]) by {
            if i < items.len() - 1 {
                assert(trees_of(items.drop_last())[i] == tree_of(items.drop_last()[i]));
            }
        }
    }
}

proof fn lemma_keys_are_those_of_fields(fields: Seq<(String, Json)>, key: Seq<char>)
    ensures
        fields_of(fields).contains_key(key) <==> exists|i: int|
            0 <= i < fields.len() && (#[trigger] fields[i]).0@ == key,
    decreases fields.len(),
{
    if fields.len() > 0 {
        let rest = fields.drop_last();
        lemma_keys_are_those_of_fields(rest, key);
        if exists|i: int| 0 <= i < rest.len() && (#[trigger] rest[i]).0@ == key {
            let i = choose|i: int| 0 <= i < rest.len() && (#[trigger] rest[i]).0@ == key;
            assert(fields[i].0@ == key);
        }
        if exists|i: int| 0 <= i < fields.len() && (#[trigger] fields[i]).0@ == key {
            let i = choose|i: int| 0 <= i < fields.len() && (#[trigger] fields[i]).0@ == key;
            if i < rest.len() {
                assert(rest[i].0@ == key);
            } else {
                assert(fields.last().0@ == key);
            }
        }
        if fields.last().0@ == key {
            assert(fields[fields.len() - 1].0@ == key);
        }
    }
}

} // verus!
