//! JSON values as the fingerprint tables need them: read by an outside parser,
//! looked into, and written back in one canonical form.
use crate::text::{text_equal, text_of};
use vstd::prelude::*;
use vstd::string::*;
use vstd::utf8::encode_utf8;

verus! {

/// A JSON value.
pub enum Json {
    Null,
    Bool(bool),
    /// A number: its value where it is an integer that fits, and its text.
    Number { unsigned: Option<u64>, text: String },
    Text(String),
    Array(Vec<Json>),
    Object(Vec<(String, Json)>),
}

/// What a JSON value holds.
pub enum JsonShape {
    Null,
    Bool(bool),
    Number { unsigned: Option<u64>, text: Seq<char> },
    Text(Seq<char>),
    Array(Seq<JsonShape>),
    Object(Seq<(Seq<char>, JsonShape)>),
}

/// What a JSON value holds.
pub open spec fn json_shape(json: Json) -> JsonShape
    decreases json,
{
    match json {
        Json::Null => JsonShape::Null,
        Json::Bool(value) => JsonShape::Bool(value),
        Json::Number { unsigned, text } => JsonShape::Number { unsigned, text: text@ },
        Json::Text(text) => JsonShape::Text(text@),
        Json::Array(items) => JsonShape::Array(
            Seq::new(
                items@.len(),
                |i: int|
                    if 0 <= i < items@.len() {
                        json_shape(items@[i])
                    } else {
                        JsonShape::Null
                    },
            ),
        ),
        Json::Object(entries) => JsonShape::Object(
            Seq::new(
                entries@.len(),
                |i: int|
                    if 0 <= i < entries@.len() {
                        (entries@[i].0@, json_shape(entries@[i].1))
                    } else {
                        (Seq::empty(), JsonShape::Null)
                    },
            ),
        ),
    }
}

impl View for Json {
    type V = JsonShape;

    open spec fn view(&self) -> JsonShape {
        json_shape(*self)
    }
}

/// `serde_json::Value`: a document as the parser gives it. Nothing is known of one
/// but what the functions below say.
#[verifier::external_type_specification]
#[verifier::external_body]
pub struct ExValue(serde_json::Value);

/// What a parsed value holds.
pub uninterp spec fn value_contents(value: serde_json::Value) -> JsonShape;

/// What a document reads as: a value, or the parser's complaint.
pub uninterp spec fn json_reading(document: Seq<u8>) -> Result<JsonShape, Seq<char>>;

/// `serde_json::from_slice`: the value that a document stands for, or the text
/// of the error. Either depends on the document alone.
#[verifier::external_body]
fn parse_value(document: &[u8]) -> (result: Result<serde_json::Value, String>)
    ensures
        match json_reading(document@) {
            Ok(shape) => result matches Ok(value) && value_contents(value) == shape,
            Err(complaint) => result matches Err(text) && text@ == complaint,
        },
{
    serde_json::from_slice(document).map_err(|error| error.to_string())
}

/// `serde_json::Value` taken apart, variant by variant: the same value as a
/// `Json`. A number keeps its text and, where it is one, its unsigned value.
#[verifier::external_body]
fn json_of(value: serde_json::Value) -> (json: Json)
    ensures
        json@ == value_contents(value),
{
    match value {
        serde_json::Value::Null => Json::Null,
        serde_json::Value::Bool(value) => Json::Bool(value),
        serde_json::Value::Number(number) => {
            Json::Number { unsigned: number.as_u64(), text: number.to_string() }
        },
        serde_json::Value::String(text) => Json::Text(text),
        serde_json::Value::Array(items) => Json::Array(items.into_iter().map(json_of).collect()),
        serde_json::Value::Object(entries) => {
            Json::Object(entries.into_iter().map(|(key, item)| (key, json_of(item))).collect())
        },
    }
}

/// Read a document, or say why it cannot be read.
pub fn read_json(document: &[u8]) -> (result: Result<Json, String>)
    ensures
        match json_reading(document@) {
            Ok(shape) => result matches Ok(json) && json@ == shape,
            Err(complaint) => result matches Err(text) && text@ == complaint,
        },
{
    match parse_value(document) {
        Ok(value) => Ok(json_of(value)),
        Err(text) => Err(text),
    }
}

/// What each of a list of values holds.
pub open spec fn shapes_of(items: Seq<Json>) -> Seq<JsonShape> {
    Seq::new(items.len(), |i: int| items[i]@)
}

impl JsonShape {
    /// The value of the first entry with this key among the first `n`.
    pub open spec fn entry_before(self, key: Seq<char>, n: nat) -> Option<JsonShape>
        decreases n,
    {
        match self {
            JsonShape::Object(entries) => if n == 0 {
                None
            } else {
                match self.entry_before(key, (n - 1) as nat) {
                    Some(value) => Some(value),
                    None => if entries[n - 1].0 == key {
                        Some(entries[n - 1].1)
                    } else {
                        None
                    },
                }
            },
            _ => None,
        }
    }

    /// The value under a key of an object.
    pub open spec fn at(self, key: Seq<char>) -> Option<JsonShape> {
        match self {
            JsonShape::Object(entries) => self.entry_before(key, entries.len()),
            _ => None,
        }
    }

    /// The text under a key of an object.
    pub open spec fn text_at(self, key: Seq<char>) -> Option<Seq<char>> {
        match self.at(key) {
            Some(JsonShape::Text(text)) => Some(text),
            _ => None,
        }
    }

    /// The unsigned integer under a key of an object.
    pub open spec fn unsigned_at(self, key: Seq<char>) -> Option<u64> {
        match self.at(key) {
            Some(JsonShape::Number { unsigned, .. }) => unsigned,
            _ => None,
        }
    }
}

impl Json {
    /// The value under a key of an object.
    pub fn get(&self, key: &str) -> (value: Option<&Json>)
        ensures
            match self@.at(key@) {
                Some(shape) => value matches Some(actual) && actual@ == shape,
                None => value is None,
            },
    {
        match self {
            Json::Object(entries) => {
                for i in 0..entries.len()
                    invariant
                        *self == Json::Object(*entries),
                        self@.entry_before(key@, i as nat) is None,
                {
                    if text_equal(entries[i].0.as_str(), key) {
                        proof {
                            lemma_entry_stays(self@, key@, (i + 1) as nat, entries@.len());
                        }
                        return Some(&entries[i].1);
                    }
                }
                None
            },
            _ => None,
        }
    }

    /// The text, where the value is one.
    pub fn as_str(&self) -> (text: Option<&str>)
        ensures
            match self@ {
                JsonShape::Text(shape) => text matches Some(actual) && actual@ == shape,
                _ => text is None,
            },
    {
        match self {
            Json::Text(text) => Some(text.as_str()),
            _ => None,
        }
    }

    /// The items, where the value is a list.
    pub fn as_array(&self) -> (items: Option<&Vec<Json>>)
        ensures
            match self@ {
                JsonShape::Array(shapes) => items matches Some(actual) && shapes_of(actual@)
                    == shapes,
                _ => items is None,
            },
    {
        match self {
            Json::Array(items) => {
                assert(self@ == JsonShape::Array(shapes_of(items@))) by {
                    assert(self@->Array_0 =~= shapes_of(items@));
                }
                Some(items)
            },
            _ => None,
        }
    }

    /// The unsigned integer, where the value is one.
    pub fn as_u64(&self) -> (number: Option<u64>)
        ensures
            number == match self@ {
                JsonShape::Number { unsigned, .. } => unsigned,
                _ => None,
            },
    {
        match self {
            Json::Number { unsigned, .. } => *unsigned,
            _ => None,
        }
    }

    /// The text under a key of an object.
    pub fn text_at(&self, key: &str) -> (text: Option<&str>)
        ensures
            match self@.text_at(key@) {
                Some(shape) => text matches Some(actual) && actual@ == shape,
                None => text is None,
            },
    {
        match self.get(key) {
            Some(value) => value.as_str(),
            None => None,
        }
    }

    /// The unsigned integer under a key of an object.
    pub fn unsigned_at(&self, key: &str) -> (number: Option<u64>)
        ensures
            number == self@.unsigned_at(key@),
    {
        match self.get(key) {
            Some(value) => value.as_u64(),
            None => None,
        }
    }
}

proof fn lemma_entry_stays(shape: JsonShape, key: Seq<char>, n: nat, m: nat)
    requires
        n <= m,
        shape.entry_before(key, n) is Some,
    ensures
        shape.entry_before(key, m) == shape.entry_before(key, n),
    decreases m,
{
    if n < m {
        lemma_entry_stays(shape, key, n, (m - 1) as nat);
    }
}

/// A text as JSON writes it: in quotes, with escapes.
pub uninterp spec fn json_quoted(text: Seq<char>) -> Seq<char>;

/// `serde_json::Value::to_string` on a string value: the quoted and escaped
/// text, which depends on the text alone.
#[verifier::external_body]
fn quote_json(text: &str) -> (quoted: String)
    ensures
        quoted@ == json_quoted(text@),
{
    serde_json::Value::String(text.to_owned()).to_string()
}

/// Whether one byte string stands before another: at the first byte that
/// differs it has the smaller one, or it ends there.
pub open spec fn bytes_before(left: Seq<u8>, right: Seq<u8>) -> bool
    decreases left.len(),
{
    if right.len() == 0 {
        false
    } else if left.len() == 0 {
        true
    } else if left[0] != right[0] {
        left[0] < right[0]
    } else {
        bytes_before(left.drop_first(), right.drop_first())
    }
}

/// Whether one text stands before another, byte by byte.
pub open spec fn text_before(left: Seq<char>, right: Seq<char>) -> bool {
    bytes_before(encode_utf8(left), encode_utf8(right))
}

fn stands_before(left: &str, right: &str) -> (before: bool)
    ensures
        before == text_before(left@, right@),
{
    let first = left.as_bytes();
    let second = right.as_bytes();
    let mut i: usize = 0;
    assert(first@.skip(0) =~= first@);
    assert(second@.skip(0) =~= second@);
    while i < first.len() && i < second.len()
        invariant
            i <= first@.len(),
            i <= second@.len(),
            text_before(left@, right@) == bytes_before(
                first@.skip(i as int),
                second@.skip(i as int),
            ),
        decreases first.len() - i,
    {
        assert(first@.skip(i as int).drop_first() =~= first@.skip(i + 1));
        assert(second@.skip(i as int).drop_first() =~= second@.skip(i + 1));
        if first[i] != second[i] {
            return first[i] < second[i];
        }
        i = i + 1;
    }
    i < second.len()
}

/// An entry put in its place among entries in order of their keys.
pub open spec fn placed(
    entries: Seq<(Seq<char>, Seq<char>)>,
    entry: (Seq<char>, Seq<char>),
) -> Seq<(Seq<char>, Seq<char>)>
    decreases entries.len(),
{
    if entries.len() == 0 || !text_before(entry.0, entries.last().0) {
        entries.push(entry)
    } else {
        placed(entries.drop_last(), entry).push(entries.last())
    }
}

/// The entries in order of their keys.
pub open spec fn in_key_order(entries: Seq<(Seq<char>, Seq<char>)>) -> Seq<
    (Seq<char>, Seq<char>),
>
    decreases entries.len(),
{
    if entries.len() == 0 {
        entries
    } else {
        placed(in_key_order(entries.drop_last()), entries.last())
    }
}

/// The first `n` texts with commas between them.
pub open spec fn comma_joined(texts: Seq<Seq<char>>, n: nat) -> Seq<char>
    decreases n,
{
    if n == 0 {
        Seq::empty()
    } else if n == 1 {
        texts[0]
    } else {
        comma_joined(texts, (n - 1) as nat) + ","@ + texts[n - 1]
    }
}

/// The second parts of pairs.
pub open spec fn second_parts(pairs: Seq<(Seq<char>, Seq<char>)>) -> Seq<Seq<char>> {
    Seq::new(pairs.len(), |i: int| pairs[i].1)
}

/// The canonical text of a value: entries in order of their keys, no white
/// space.
pub open spec fn canonical_text(shape: JsonShape) -> Seq<char>
    decreases shape, 0nat,
{
    match shape {
        JsonShape::Null => "null"@,
        JsonShape::Bool(value) => if value {
            "true"@
        } else {
            "false"@
        },
        JsonShape::Number { text, .. } => text,
        JsonShape::Text(text) => json_quoted(text),
        JsonShape::Array(items) => "["@ + comma_joined(
            item_lines(items, items.len()),
            items.len(),
        ) + "]"@,
        JsonShape::Object(entries) => "{"@ + comma_joined(
            second_parts(in_key_order(entry_lines(entries, entries.len()))),
            entries.len(),
        ) + "}"@,
    }
}

/// The canonical texts of the first `n` items.
pub open spec fn item_lines(items: Seq<JsonShape>, n: nat) -> Seq<Seq<char>>
    decreases items, n,
{
    if n == 0 || n > items.len() {
        Seq::empty()
    } else {
        item_lines(items, (n - 1) as nat).push(canonical_text(items[n - 1]))
    }
}

/// The keys of the first `n` entries, each with its line in the canonical text.
pub open spec fn entry_lines(entries: Seq<(Seq<char>, JsonShape)>, n: nat) -> Seq<
    (Seq<char>, Seq<char>),
>
    decreases entries, n,
{
    if n == 0 || n > entries.len() {
        Seq::empty()
    } else {
        entry_lines(entries, (n - 1) as nat).push(
            (
                entries[n - 1].0,
                json_quoted(entries[n - 1].0) + ":"@ + canonical_text(entries[n - 1].1),
            ),
        )
    }
}

proof fn lemma_entry_lines_len(entries: Seq<(Seq<char>, JsonShape)>, n: nat)
    requires
        n <= entries.len(),
    ensures
        entry_lines(entries, n).len() == n,
    decreases n,
{
    if n > 0 {
        lemma_entry_lines_len(entries, (n - 1) as nat);
    }
}

proof fn lemma_item_lines_len(items: Seq<JsonShape>, n: nat)
    requires
        n <= items.len(),
    ensures
        item_lines(items, n).len() == n,
    decreases n,
{
    if n > 0 {
        lemma_item_lines_len(items, (n - 1) as nat);
    }
}

proof fn lemma_placed_len(entries: Seq<(Seq<char>, Seq<char>)>, entry: (Seq<char>, Seq<char>))
    ensures
        placed(entries, entry).len() == entries.len() + 1,
    decreases entries.len(),
{
    if entries.len() > 0 {
        lemma_placed_len(entries.drop_last(), entry);
    }
}

proof fn lemma_key_order_len(entries: Seq<(Seq<char>, Seq<char>)>)
    ensures
        in_key_order(entries).len() == entries.len(),
    decreases entries.len(),
{
    if entries.len() > 0 {
        lemma_key_order_len(entries.drop_last());
        lemma_placed_len(in_key_order(entries.drop_last()), entries.last());
    }
}

/// A pair of texts.
pub open spec fn pair_shape(pair: (String, String)) -> (Seq<char>, Seq<char>) {
    (pair.0@, pair.1@)
}

/// Pairs of texts.
pub open spec fn pair_shapes(pairs: Seq<(String, String)>) -> Seq<(Seq<char>, Seq<char>)> {
    Seq::new(pairs.len(), |i: int| pair_shape(pairs[i]))
}

/// Put an entry in its place among entries in order of their keys.
fn place(entries: &mut Vec<(String, String)>, entry: (String, String))
    ensures
        pair_shapes(final(entries)@) == placed(pair_shapes(old(entries)@), pair_shape(entry)),
    decreases old(entries)@.len(),
{
    let ghost before = entries@;
    match entries.pop() {
        None => {
            entries.push(entry);
            assert(pair_shapes(entries@) =~= placed(pair_shapes(before), pair_shape(entry)));
        },
        Some(last) => {
            assert(pair_shapes(before).drop_last() =~= pair_shapes(entries@));
            assert(pair_shapes(before).last() == pair_shape(last));
            if stands_before(entry.0.as_str(), last.0.as_str()) {
                place(entries, entry);
                let ghost middle = entries@;
                entries.push(last);
                assert(pair_shapes(entries@) =~= pair_shapes(middle).push(pair_shape(last)));
            } else {
                entries.push(last);
                assert(entries@ =~= before);
                entries.push(entry);
                assert(pair_shapes(entries@) =~= pair_shapes(before).push(pair_shape(entry)));
            }
        },
    }
}

impl Json {
    /// The canonical text of the value: entries in order of their keys, no white
    /// space.
    pub fn canonical(&self) -> (text: String)
        ensures
            text@ == canonical_text(self@),
        decreases self,
    {
        match self {
            Json::Null => text_of("null"),
            Json::Bool(value) => if *value {
                text_of("true")
            } else {
                text_of("false")
            },
            Json::Number { text, .. } => text_of(text.as_str()),
            Json::Text(text) => quote_json(text.as_str()),
            Json::Array(items) => {
                let mut texts: Vec<String> = Vec::new();
                let mut i: usize = 0;
                assert(texts_of(texts@) =~= item_lines(self@->Array_0, 0));
                while i < items.len()
                    invariant
                        *self == Json::Array(*items),
                        i <= items@.len(),
                        texts_of(texts@) == item_lines(self@->Array_0, i as nat),
                    decreases items@.len() - i,
                {
                    let ghost before = texts@;
                    assert(decreases_to!(*self => self->Array_0));
                    assert(decreases_to!(items@ => items@[i as int]));
                    texts.push(items[i].canonical());
                    proof {
                        assert(self@->Array_0[i as int] == items@[i as int]@);
                        assert(texts_of(texts@) =~= texts_of(before).push(
                            canonical_text(items@[i as int]@),
                        ));
                    }
                    i = i + 1;
                }
                assert(texts_of(texts@).len() == texts@.len());
                proof {
                    lemma_item_lines_len(self@->Array_0, i as nat);
                }
                let mut text = text_of("[");
                append_joined(&mut text, &texts);
                text.append("]");
                text
            },
            Json::Object(entries) => {
                let mut pairs: Vec<(String, String)> = Vec::new();
                let mut i: usize = 0;
                assert(pair_shapes(pairs@) =~= entry_lines(self@->Object_0, 0));
                while i < entries.len()
                    invariant
                        *self == Json::Object(*entries),
                        i <= entries@.len(),
                        pair_shapes(pairs@) == in_key_order(
                            entry_lines(self@->Object_0, i as nat),
                        ),
                    decreases entries@.len() - i,
                {
                    assert(decreases_to!(*self => self->Object_0));
                    assert(decreases_to!(entries@ => entries@[i as int]));
                    let mut line = quote_json(entries[i].0.as_str());
                    line.append(":");
                    line.append(entries[i].1.canonical().as_str());
                    place(&mut pairs, (text_of(entries[i].0.as_str()), line));
                    proof {
                        let shapes = self@->Object_0;
                        let lines = entry_lines(shapes, (i + 1) as nat);
                        assert(shapes[i as int] == (entries@[i as int].0@, entries@[i as int].1@));
                        assert(lines.drop_last() =~= entry_lines(shapes, i as nat));
                    }
                    i = i + 1;
                }
                let mut lines: Vec<String> = Vec::new();
                for j in 0..pairs.len()
                    invariant
                        lines@.len() == j,
                        forall|k: int| 0 <= k < j ==> #[trigger] lines@[k]@ == pairs@[k].1@,
                {
                    lines.push(text_of(pairs[j].1.as_str()));
                }
                let mut text = text_of("{");
                append_joined(&mut text, &lines);
                text.append("}");
                proof {
                    let shapes = self@->Object_0;
                    let all = entry_lines(shapes, shapes.len());
                    lemma_entry_lines_len(shapes, shapes.len());
                    lemma_key_order_len(all);
                    assert(texts_of(lines@) =~= second_parts(in_key_order(all)));
                }
                text
            },
        }
    }
}

/// The texts of strings.
pub open spec fn texts_of(texts: Seq<String>) -> Seq<Seq<char>> {
    Seq::new(texts.len(), |i: int| texts[i]@)
}

fn append_joined(text: &mut String, texts: &Vec<String>)
    ensures
        final(text)@ == old(text)@ + comma_joined(texts_of(texts@), texts@.len()),
{
    for i in 0..texts.len()
        invariant
            text@ == old(text)@ + comma_joined(texts_of(texts@), i as nat),
    {
        if i > 0 {
            text.append(",");
        }
        text.append(texts[i].as_str());
        assert(text@ =~= old(text)@ + comma_joined(texts_of(texts@), (i + 1) as nat));
    }
}

} // verus!
