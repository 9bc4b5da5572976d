//! JSON values: what the model's messages are made of.
use crate::text;
use vstd::prelude::*;

verus! {

/// A JSON value. A number that is no unsigned 64-bit integer is kept as the
/// text that it is written with.
#[derive(Debug)]
pub enum Json {
    Null,
    Bool(bool),
    Unsigned(u64),
    Number(String),
    Text(String),
    Array(Vec<Json>),
    Object(Vec<(String, Json)>),
}

/// What a JSON value says: the model of [`Json`].
pub enum Tree {
    Null,
    Bool(bool),
    Unsigned(u64),
    Number(Seq<char>),
    Text(Seq<char>),
    Array(Seq<Tree>),
    Object(Seq<(Seq<char>, Tree)>),
}

impl Json {
    /// What the value says.
    pub open spec fn tree(self) -> Tree
        decreases self,
    {
        match self {
            Json::Null => Tree::Null,
            Json::Bool(b) => Tree::Bool(b),
            Json::Unsigned(n) => Tree::Unsigned(n),
            Json::Number(s) => Tree::Number(s@),
            Json::Text(s) => Tree::Text(s@),
            Json::Array(items) => Tree::Array(
                Seq::new(
                    items@.len(),
                    |i: int|
                        if 0 <= i < items@.len() {
                            items@[i].tree()
                        } else {
                            Tree::Null
                        },
                ),
            ),
            Json::Object(fields) => Tree::Object(
                Seq::new(
                    fields@.len(),
                    |i: int|
                        if 0 <= i < fields@.len() {
                            (fields@[i].0@, fields@[i].1.tree())
                        } else {
                            (Seq::empty(), Tree::Null)
                        },
                ),
            ),
        }
    }
}

impl View for Json {
    type V = Tree;

    open spec fn view(&self) -> Tree {
        self.tree()
    }
}

/// What each value says.
pub open spec fn trees(items: Seq<Json>) -> Seq<Tree> {
    items.map_values(|j: Json| j@)
}

/// The value of the first field named `key` from position `from` on.
pub open spec fn lookup(fields: Seq<(Seq<char>, Tree)>, key: Seq<char>, from: int) -> Option<Tree>
    decreases fields.len() - from,
{
    if from < 0 || from >= fields.len() {
        None
    } else if fields[from].0 == key {
        Some(fields[from].1)
    } else {
        lookup(fields, key, from + 1)
    }
}

impl Tree {
    /// The field `key`; `None` for a missing field and for a value that is no
    /// object.
    pub open spec fn get(self, key: Seq<char>) -> Option<Tree> {
        match self {
            Tree::Object(fields) => lookup(fields, key, 0),
            _ => None,
        }
    }

    /// The field `key`, with `Null` for a missing one.
    pub open spec fn at(self, key: Seq<char>) -> Tree {
        match self.get(key) {
            Some(v) => v,
            None => Tree::Null,
        }
    }

    /// The text, if the value is one.
    pub open spec fn as_text(self) -> Option<Seq<char>> {
        match self {
            Tree::Text(s) => Some(s),
            _ => None,
        }
    }

    /// The text of field `key`, if there is one.
    pub open spec fn text(self, key: Seq<char>) -> Option<Seq<char>> {
        self.at(key).as_text()
    }

    /// The elements, if the value is an array.
    pub open spec fn as_array(self) -> Option<Seq<Tree>> {
        match self {
            Tree::Array(items) => Some(items),
            _ => None,
        }
    }

    /// The unsigned integer, if the value is one.
    pub open spec fn as_unsigned(self) -> Option<u64> {
        match self {
            Tree::Unsigned(n) => Some(n),
            _ => None,
        }
    }

    /// Whether a field can be set: the value is an object, or nothing yet.
    pub open spec fn settable(self) -> bool {
        self is Object || self is Null
    }

    /// The value with field `key` set to `value`.
    pub open spec fn set(self, key: Seq<char>, value: Tree) -> Tree {
        match self {
            Tree::Object(fields) => Tree::Object(put(fields, key, value)),
            _ => Tree::Object(seq![(key, value)]),
        }
    }
}

/// The fields with `key` set to `value`: in its place, or else at the end.
pub open spec fn put(fields: Seq<(Seq<char>, Tree)>, key: Seq<char>, value: Tree) -> Seq<(Seq<char>, Tree)>
    decreases fields.len(),
{
    if fields.len() == 0 {
        seq![(key, value)]
    } else if fields[0].0 == key {
        fields.update(0, (key, value))
    } else {
        seq![fields[0]] + put(fields.drop_first(), key, value)
    }
}

impl Json {
    /// The field `key` of an object.
    pub fn get(&self, key: &str) -> (r: Option<&Json>)
        ensures
            r is Some <==> self@.get(key@) is Some,
            r matches Some(v) ==> self@.get(key@) == Some(v@),
    {
        match self {
            Json::Object(fields) => {
                let mut i: usize = 0;
                while i < fields.len()
                    invariant
                        i <= fields@.len(),
                        self@ is Object,
                        self@->Object_0.len() == fields@.len(),
                        forall|k: int|
                            0 <= k < fields@.len() ==> #[trigger] self@->Object_0[k] == (fields@[k].0@, fields@[k].1@),
                        lookup(self@->Object_0, key@, i as int) == lookup(self@->Object_0, key@, 0),
                    decreases fields@.len() - i,
                {
                    let field: &(String, Json) = &fields[i];
                    assert(self@->Object_0[i as int] == (field.0@, field.1@));
                    if text::same(&field.0, key) {
                        return Some(&field.1);
                    }
                    i += 1;
                }
                None
            },
            _ => None,
        }
    }

    /// The text of field `key`.
    pub fn text(&self, key: &str) -> (r: Option<&String>)
        ensures
            r is Some <==> self@.text(key@) is Some,
            r matches Some(s) ==> self@.text(key@) == Some(s@),
    {
        match self.get(key) {
            Some(Json::Text(s)) => Some(s),
            _ => None,
        }
    }

    /// Whether field `key` is the text `value`.
    pub fn text_is(&self, key: &str, value: &str) -> (r: bool)
        ensures
            r == (self@.text(key@) == Some(value@)),
    {
        match self.text(key) {
            Some(s) => text::same(s, value),
            None => false,
        }
    }

    /// The elements of the array in field `key`.
    pub fn array(&self, key: &str) -> (r: Option<&Vec<Json>>)
        ensures
            r is Some <==> self@.at(key@).as_array() is Some,
            r matches Some(items) ==> self@.at(key@).as_array() == Some(trees(items@)),
    {
        match self.get(key) {
            Some(Json::Array(items)) => {
                proof {
                    let v = self@.at(key@);
                    assert(v.as_array()->0 =~= trees(items@));
                }
                Some(items)
            },
            _ => None,
        }
    }

    /// The unsigned integer in field `key`.
    pub fn unsigned(&self, key: &str) -> (r: Option<u64>)
        ensures
            r == self@.at(key@).as_unsigned(),
    {
        match self.get(key) {
            Some(Json::Unsigned(n)) => Some(*n),
            _ => None,
        }
    }

    /// A copy of field `key`, `Null` where there is none.
    pub fn at(&self, key: &str) -> (r: Json)
        ensures
            r@ == self@.at(key@),
    {
        match self.get(key) {
            Some(v) => v.clone(),
            None => Json::Null,
        }
    }

    /// Sets field `key` to `value`.
    pub fn set(&mut self, key: &str, value: Json)
        requires
            old(self)@.settable(),
        ensures
            final(self)@ == old(self)@.set(key@, value@),
    {
        let ghost before = self@;
        let mut fields: Vec<(String, Json)> = Vec::new();
        let mut placed: Option<Json> = Some(value);
        if let Json::Object(old_fields) = self {
            let mut i: usize = 0;
            let ghost all = before->Object_0;
            let ghost done: Seq<(Seq<char>, Tree)> = seq![];
            assert(all.skip(0) =~= all);
            assert(done + put(all, key@, value@) =~= put(all, key@, value@));
            while i < old_fields.len()
                invariant
                    i <= old_fields@.len(),
                    all.len() == old_fields@.len(),
                    forall|k: int|
                        0 <= k < all.len() ==> #[trigger] all[k] == (old_fields@[k].0@, old_fields@[k].1@),
                    done == field_trees(fields@),
                    placed matches Some(v) ==> v == value && done + put(all.skip(i as int), key@, value@) == put(
                        all,
                        key@,
                        value@,
                    ),
                    placed is None ==> done + all.skip(i as int) == put(all, key@, value@),
                decreases old_fields@.len() - i,
            {
                let field: &(String, Json) = &old_fields[i];
                let hit = placed.is_some() && text::same(&field.0, key);
                let name = field.0.clone();
                let ghost rest = all.skip(i as int);
                proof {
                    assert(rest[0] == all[i as int]);
                    assert(rest.drop_first() =~= all.skip(i + 1));
                    assert(rest =~= seq![rest[0]] + all.skip(i + 1));
                }
                if hit {
                    let v = placed.take().unwrap();
                    fields.push((name, v));
                    proof {
                        assert(rest.update(0, (key@, value@)) =~= seq![(key@, value@)] + all.skip(i + 1));
                        assert(done + (seq![(key@, value@)] + all.skip(i + 1)) =~= done.push((key@, value@)) + all.skip(
                            i + 1,
                        ));
                        done = done.push((key@, value@));
                    }
                } else {
                    fields.push((name, field.1.clone()));
                    proof {
                        assert(done + (seq![rest[0]] + all.skip(i + 1)) =~= done.push(rest[0]) + all.skip(i + 1));
                        assert(done + (seq![rest[0]] + put(all.skip(i + 1), key@, value@)) =~= done.push(rest[0]) + put(
                            all.skip(i + 1),
                            key@,
                            value@,
                        ));
                        done = done.push(rest[0]);
                    }
                }
                assert(field_trees(fields@) =~= done);
                i += 1;
            }
            proof {
                assert(all.skip(i as int) =~= seq![]);
                assert(done + all.skip(i as int) =~= done);
                assert(done + seq![(key@, value@)] =~= done.push((key@, value@)));
            }
        }
        if let Some(v) = placed {
            let ghost shorter = fields@;
            fields.push((key.to_owned(), v));
            assert(field_trees(fields@) =~= field_trees(shorter).push((key@, value@)));
        }
        proof {
            if before is Null {
                assert(field_trees(fields@) =~= seq![(key@, value@)]);
            }
        }
        *self = object(fields);
    }
}

/// What each field says.
pub open spec fn field_trees(fields: Seq<(String, Json)>) -> Seq<(Seq<char>, Tree)> {
    fields.map_values(|f: (String, Json)| (f.0@, f.1@))
}

/// The object with the given fields.
pub fn object(fields: Vec<(String, Json)>) -> (r: Json)
    ensures
        r@ == Tree::Object(field_trees(fields@)),
{
    let r = Json::Object(fields);
    proof {
        assert(r@->Object_0 =~= field_trees(fields@));
    }
    r
}

/// The array with the given elements.
pub fn array(items: Vec<Json>) -> (r: Json)
    ensures
        r@ == Tree::Array(trees(items@)),
{
    let r = Json::Array(items);
    proof {
        assert(r@->Array_0 =~= trees(items@));
    }
    r
}

impl Clone for Json {
    fn clone(&self) -> (r: Json)
        ensures
            r@ == self@,
        decreases self,
    {
        match self {
            Json::Null => Json::Null,
            Json::Bool(b) => Json::Bool(*b),
            Json::Unsigned(n) => Json::Unsigned(*n),
            Json::Number(s) => Json::Number(s.clone()),
            Json::Text(s) => Json::Text(s.clone()),
            Json::Array(items) => {
                let mut out: Vec<Json> = Vec::new();
                let mut i: usize = 0;
                while i < items.len()
                    invariant
                        i <= items@.len(),
                        *self == Json::Array(*items),
                        trees(out@) == trees(items@).take(i as int),
                    decreases items@.len() - i,
                {
                    let ghost before = out@;
                    let item = &items[i];
                    assert(decreases_to!(*self => self->Array_0));
                    assert(decreases_to!(items@ => items@[i as int]));
                    let copy = item.clone();
                    out.push(copy);
                    assert(trees(out@) =~= trees(before).push(copy@));
                    assert(trees(items@).take(i + 1) =~= trees(items@).take(i as int).push(items@[i as int]@));
                    i += 1;
                }
                assert(trees(items@).take(i as int) =~= trees(items@));
                let r = array(out);
                assert(self@->Array_0 =~= trees(items@));
                r
            },
            Json::Object(fields) => {
                let mut out: Vec<(String, Json)> = Vec::new();
                let mut i: usize = 0;
                while i < fields.len()
                    invariant
                        i <= fields@.len(),
                        *self == Json::Object(*fields),
                        field_trees(out@) == field_trees(fields@).take(i as int),
                    decreases fields@.len() - i,
                {
                    let ghost before = out@;
                    let field: &(String, Json) = &fields[i];
                    assert(decreases_to!(*self => self->Object_0));
                    assert(decreases_to!(fields@ => fields@[i as int]));
                    assert(decreases_to!(fields@[i as int] => fields@[i as int].1));
                    let copy = field.1.clone();
                    out.push((field.0.clone(), copy));
                    assert(field_trees(out@) =~= field_trees(before).push((field.0@, copy@)));
                    assert(field_trees(fields@).take(i + 1) =~= field_trees(fields@).take(i as int).push(
                        (field.0@, field.1@),
                    ));
                    i += 1;
                }
                assert(field_trees(fields@).take(i as int) =~= field_trees(fields@));
                let r = object(out);
                assert(self@->Object_0 =~= field_trees(fields@));
                r
            },
        }
    }
}

/// A value of `serde_json`, carried but never looked into.
#[verifier::external_type_specification]
#[verifier::external_body]
pub struct ExValue(serde_json::Value);

/// What a value of `serde_json` holds.
pub uninterp spec fn json_tree(value: serde_json::Value) -> Tree;

/// What `serde_json::from_str` makes of a text: the value, or else the words
/// of the error.
pub uninterp spec fn json_parse(source: Seq<char>) -> Result<Tree, Seq<char>>;

spec fn value_view(r: Result<serde_json::Value, String>) -> Result<Tree, Seq<char>> {
    match r {
        Ok(v) => Ok(json_tree(v)),
        Err(e) => Err(e@),
    }
}

/// `serde_json::from_str` for any value. It reads the whole of `source`; its
/// result depends on `source` alone.
#[verifier::external_body]
fn parse_value(source: &str) -> (r: Result<serde_json::Value, String>)
    ensures
        value_view(r) == json_parse(source@),
{
    serde_json::from_str(source).map_err(|e| e.to_string())
}

/// One level of a value of `serde_json`.
enum Shape {
    Null,
    Bool(bool),
    Unsigned(u64),
    Number(String),
    Text(String),
    Array(Vec<serde_json::Value>),
    Object(Vec<(String, serde_json::Value)>),
}

spec fn shape_tree(shape: Shape) -> Tree {
    match shape {
        Shape::Null => Tree::Null,
        Shape::Bool(b) => Tree::Bool(b),
        Shape::Unsigned(n) => Tree::Unsigned(n),
        Shape::Number(s) => Tree::Number(s@),
        Shape::Text(s) => Tree::Text(s@),
        Shape::Array(items) => Tree::Array(items@.map_values(|v: serde_json::Value| json_tree(v))),
        Shape::Object(fields) => Tree::Object(
            fields@.map_values(|f: (String, serde_json::Value)| (f.0@, json_tree(f.1))),
        ),
    }
}

/// Takes a `serde_json::Value` apart by its variants; `as_u64` of its number
/// tells the unsigned integers from the rest, which keep the text that they
/// are printed with. The fields of an object come in the order of the map.
#[verifier::external_body]
fn open(value: serde_json::Value) -> (r: Shape)
    ensures
        json_tree(value) == shape_tree(r),
{
    match value {
        serde_json::Value::Null => Shape::Null,
        serde_json::Value::Bool(b) => Shape::Bool(b),
        serde_json::Value::Number(n) => match n.as_u64() {
            Some(n) => Shape::Unsigned(n),
            None => Shape::Number(n.to_string()),
        },
        serde_json::Value::String(s) => Shape::Text(s),
        serde_json::Value::Array(items) => Shape::Array(items),
        serde_json::Value::Object(fields) => Shape::Object(fields.into_iter().collect()),
    }
}

/// The library's form of a value of `serde_json`.
fn lift(value: serde_json::Value) -> (r: Json)
    ensures
        r@ == json_tree(value),
    decreases json_tree(value),
{
    match open(value) {
        Shape::Null => Json::Null,
        Shape::Bool(b) => Json::Bool(b),
        Shape::Unsigned(n) => Json::Unsigned(n),
        Shape::Number(s) => Json::Number(s),
        Shape::Text(s) => Json::Text(s),
        Shape::Array(items) => {
            let ghost expected = json_tree(value)->Array_0;
            let mut out: Vec<Json> = Vec::new();
            for item in it: items
                invariant
                    it.seq() == items@,
                    json_tree(value) == Tree::Array(expected),
                    expected == items@.map_values(|v: serde_json::Value| json_tree(v)),
                    trees(out@) == expected.take(it.index()),
            {
                let ghost before = out@;
                let ghost i = it.index();
                assert(expected[i] == json_tree(item));
                assert(decreases_to!(expected => expected[i]));
                assert(decreases_to!(json_tree(value) => json_tree(value)->Array_0));
                let copy = lift(item);
                out.push(copy);
                assert(trees(out@) =~= trees(before).push(copy@));
                assert(expected.take(i + 1) =~= expected.take(i).push(expected[i]));
            }
            assert(expected.take(expected.len() as int) =~= expected);
            array(out)
        },
        Shape::Object(fields) => {
            let ghost expected = json_tree(value)->Object_0;
            let mut out: Vec<(String, Json)> = Vec::new();
            for field in it: fields
                invariant
                    it.seq() == fields@,
                    json_tree(value) == Tree::Object(expected),
                    expected == fields@.map_values(|f: (String, serde_json::Value)| (f.0@, json_tree(f.1))),
                    field_trees(out@) == expected.take(it.index()),
            {
                let ghost before = out@;
                let ghost i = it.index();
                let (name, item) = field;
                assert(expected[i] == (name@, json_tree(item)));
                assert(decreases_to!(expected => expected[i]));
                assert(decreases_to!(expected[i] => expected[i].1));
                assert(decreases_to!(json_tree(value) => json_tree(value)->Object_0));
                let copy = lift(item);
                out.push((name, copy));
                assert(field_trees(out@) =~= field_trees(before).push((name@, copy@)));
                assert(expected.take(i + 1) =~= expected.take(i).push(expected[i]));
            }
            assert(expected.take(expected.len() as int) =~= expected);
            object(out)
        },
    }
}

/// What a parse says.
pub open spec fn parse_view(r: Result<Json, String>) -> Result<Tree, Seq<char>> {
    match r {
        Ok(v) => Ok(v@),
        Err(e) => Err(e@),
    }
}

impl Json {
    /// Reads a JSON text.
    pub fn parse(source: &str) -> (r: Result<Json, String>)
        ensures
            parse_view(r) == json_parse(source@),
    {
        match parse_value(source) {
            Ok(v) => Ok(lift(v)),
            Err(e) => Err(e),
        }
    }
}

/// The compact form that `serde_json` prints for a value.
pub uninterp spec fn json_printed(tree: Tree) -> Seq<char>;

/// `serde_json::Value::to_string`: the compact form of a value, without line
/// breaks. It depends on what the value says alone: numbers keep the text that
/// they are printed with, and the fields of an object their order.
#[verifier::external_body]
fn print_value(value: &serde_json::Value) -> (r: String)
    ensures
        r@ == json_printed(json_tree(*value)),
{
    value.to_string()
}

/// The compact form of the value in a text, `None` where it is no JSON text.
pub open spec fn compacted(source: Seq<char>) -> Option<Seq<char>> {
    match json_parse(source) {
        Ok(tree) => Some(json_printed(tree)),
        Err(_) => None,
    }
}

/// The compact form of the value in `source`, `None` where `source` is no JSON
/// text.
pub(crate) fn compact(source: &str) -> (r: Option<String>)
    ensures
        r matches Some(s) ==> compacted(source@) == Some(s@),
        r is None ==> compacted(source@) is None,
{
    match parse_value(source) {
        Ok(value) => Some(print_value(&value)),
        Err(_) => None,
    }
}

/// How a text begins, read as a JSON string.
pub enum Lead {
    /// Nothing but white space.
    End,
    /// A string, and the text behind it.
    Text(String, String),
    /// A string that the end of the text cuts off.
    Partial,
    /// Something else.
    Invalid,
}

/// The model of [`Lead`].
pub enum LeadView {
    End,
    Text(Seq<char>, Seq<char>),
    Partial,
    Invalid,
}

impl View for Lead {
    type V = LeadView;

    open spec fn view(&self) -> LeadView {
        match self {
            Lead::End => LeadView::End,
            Lead::Text(s, rest) => LeadView::Text(s@, rest@),
            Lead::Partial => LeadView::Partial,
            Lead::Invalid => LeadView::Invalid,
        }
    }
}

/// What a stream deserializer of `serde_json` for strings makes of the start of
/// a text.
pub uninterp spec fn json_leading_text(source: Seq<char>) -> LeadView;

/// The first item of `serde_json::Deserializer::from_str(..).into_iter::<String>()`
/// with the text from its `byte_offset` on, which is no longer than `source`.
#[verifier::external_body]
pub(crate) fn leading_text(source: &str) -> (r: Lead)
    ensures
        r@ == json_leading_text(source@),
        r matches Lead::Text(_, rest) ==> rest@.len() <= source@.len(),
{
    let mut stream = serde_json::Deserializer::from_str(source).into_iter::<String>();
    match stream.next() {
        None => Lead::End,
        Some(Ok(s)) => Lead::Text(s, source[stream.byte_offset()..].to_owned()),
        Some(Err(e)) if e.is_eof() => Lead::Partial,
        Some(Err(_)) => Lead::Invalid,
    }
}

/// The text behind the value that a text begins with, as a stream deserializer
/// of `serde_json` reads it.
pub uninterp spec fn json_after_value(source: Seq<char>) -> Option<Seq<char>>;

/// The text from the `byte_offset` on that
/// `serde_json::Deserializer::from_str(..).into_iter::<IgnoredAny>()` has after
/// its first item, `None` where there is no item or it is an error. It is no
/// longer than `source`.
#[verifier::external_body]
pub(crate) fn after_value(source: &str) -> (r: Option<String>)
    ensures
        r matches Some(rest) ==> json_after_value(source@) == Some(rest@) && rest@.len() <= source@.len(),
        r is None ==> json_after_value(source@) is None,
{
    let mut stream = serde_json::Deserializer::from_str(source).into_iter::<serde::de::IgnoredAny>();
    stream.next()?.ok()?;
    Some(source[stream.byte_offset()..].to_owned())
}

/// The four hexadecimal digits of a control character below 32.
pub open spec fn hex_escape(c: char) -> Seq<char> {
    let u = c as u32;
    let low = u % 16;
    seq![
        '\\',
        'u',
        '0',
        '0',
        if u >= 16 { '1' } else { '0' },
        if low < 10 { ('0' as u32 + low) as char } else { ('a' as u32 + (low - 10)) as char },
    ]
}

/// One character inside a JSON string.
pub open spec fn escaped_char(c: char) -> Seq<char> {
    if c == '"' || c == '\\' {
        seq!['\\', c]
    } else if c as u32 == 8 {
        seq!['\\', 'b']
    } else if c == '\t' {
        seq!['\\', 't']
    } else if c == '\n' {
        seq!['\\', 'n']
    } else if c as u32 == 12 {
        seq!['\\', 'f']
    } else if c == '\r' {
        seq!['\\', 'r']
    } else if (c as u32) < 32 {
        hex_escape(c)
    } else {
        seq![c]
    }
}

/// The inside of the JSON string for `s`.
pub open spec fn escaped(s: Seq<char>) -> Seq<char>
    decreases s.len(),
{
    if s.len() == 0 {
        seq![]
    } else {
        escaped(s.drop_last()) + escaped_char(s.last())
    }
}

/// The JSON string for `s`.
pub open spec fn quoted(s: Seq<char>) -> Seq<char> {
    seq!['"'] + escaped(s) + seq!['"']
}

/// `serde_json::to_string` of a text: the text between double quotes, with a
/// backslash escape for a double quote, a backslash and each control character
/// below 32, and every other character as it is.
#[verifier::external_body]
pub(crate) fn quote(s: &str) -> (r: String)
    ensures
        r@ == quoted(s@),
{
    serde_json::to_string(s).unwrap()
}

/// A field is found by its name, the first of that name counting; a name that no
/// field has gives nothing, and neither does a value that is no object.
pub proof fn law_fields_are_found_by_name(fields: Seq<(Seq<char>, Tree)>, key: Seq<char>, k: int)
    ensures
        0 <= k < fields.len() && fields[k].0 == key && (forall|j: int| 0 <= j < k ==> (#[trigger] fields[j]).0 != key)
            ==> Tree::Object(fields).get(key) == Some(fields[k].1) && Tree::Object(fields).at(key) == fields[k].1,
        (forall|j: int| 0 <= j < fields.len() ==> (#[trigger] fields[j]).0 != key) ==> Tree::Object(fields).get(key)
            is None && Tree::Object(fields).at(key) == Tree::Null,
        forall|v: Tree| !(v is Object) ==> (#[trigger] v.at(key)) == Tree::Null,
        forall|s: Seq<char>| (#[trigger] Tree::Text(s).as_text()) == Some(s),
        forall|v: Tree| !(v is Text) ==> (#[trigger] v.as_text()) is None,
        forall|v: Tree| #[trigger] v.text(key) == v.at(key).as_text(),
        forall|n: u64| (#[trigger] Tree::Unsigned(n).as_unsigned()) == Some(n),
        forall|v: Tree| !(v is Unsigned) ==> (#[trigger] v.as_unsigned()) is None,
        forall|items: Seq<Tree>| (#[trigger] Tree::Array(items).as_array()) == Some(items),
        forall|v: Tree| !(v is Array) ==> (#[trigger] v.as_array()) is None,
{
    lemma_lookup(fields, key, 0, k);
}

proof fn lemma_lookup(fields: Seq<(Seq<char>, Tree)>, key: Seq<char>, from: int, k: int)
    requires
        0 <= from <= fields.len(),
    ensures
        from <= k < fields.len() && fields[k].0 == key && (forall|j: int|
            from <= j < k ==> (#[trigger] fields[j]).0 != key) ==> lookup(fields, key, from) == Some(fields[k].1),
        (forall|j: int| from <= j < fields.len() ==> (#[trigger] fields[j]).0 != key) ==> lookup(fields, key, from)
            is None,
    decreases fields.len() - from,
{
    if from < fields.len() && fields[from].0 != key {
        lemma_lookup(fields, key, from + 1, k);
    }
}

/// A field that is set has the value that was given, and every other field is
/// what it was.
pub proof fn law_set_fields_are_found(v: Tree, key: Seq<char>, other: Seq<char>, value: Tree)
    requires
        v is Object || v is Null,
        other != key,
    ensures
        v.settable(),
        v.set(key, value).get(key) == Some(value),
        v.set(key, value).get(other) == v.get(other),
{
    match v {
        Tree::Object(fields) => {
            lemma_put(fields, key, other, value);
        },
        _ => {
            reveal_with_fuel(lookup, 2);
        },
    }
}

proof fn lemma_lookup_shift(first: (Seq<char>, Tree), rest: Seq<(Seq<char>, Tree)>, key: Seq<char>, from: int)
    requires
        0 <= from <= rest.len(),
    ensures
        lookup(seq![first] + rest, key, from + 1) == lookup(rest, key, from),
    decreases rest.len() - from,
{
    if from < rest.len() {
        lemma_lookup_shift(first, rest, key, from + 1);
    }
}

proof fn lemma_put(fields: Seq<(Seq<char>, Tree)>, key: Seq<char>, other: Seq<char>, value: Tree)
    requires
        other != key,
    ensures
        lookup(put(fields, key, value), key, 0) == Some(value),
        lookup(put(fields, key, value), other, 0) == lookup(fields, other, 0),
    decreases fields.len(),
{
    let after = put(fields, key, value);
    reveal_with_fuel(lookup, 2);
    if fields.len() > 0 {
        let rest = fields.drop_first();
        assert(fields =~= seq![fields[0]] + rest);
        lemma_lookup_shift(fields[0], rest, other, 0);
        if fields[0].0 == key {
            assert(after =~= seq![(key, value)] + rest);
            lemma_lookup_shift((key, value), rest, other, 0);
        } else {
            lemma_put(rest, key, other, value);
            let more = put(rest, key, value);
            lemma_lookup_shift(fields[0], more, key, 0);
            lemma_lookup_shift(fields[0], more, other, 0);
        }
    }
}

} // verus!
