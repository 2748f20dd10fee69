//! JSON values, as far as the library reads and writes them.

use vstd::prelude::*;
use crate::text;

verus! {

broadcast use vstd::string::group_string_axioms;

/// A member of an inner object: its key, and its value read as a string and as an unsigned
/// integer.
#[derive(Debug)]
pub struct JsonField {
    pub key: String,
    pub text: Option<String>,
    pub unsigned: Option<u64>,
}

/// A member of the outermost object: its key, and the members of its value where that is an
/// object.
#[derive(Debug)]
pub struct JsonMember {
    pub key: String,
    pub fields: Vec<JsonField>,
}

/// What a field says, with texts as sequences of characters.
pub struct JsonFieldView {
    pub key: Seq<char>,
    pub text: Option<Seq<char>>,
    pub unsigned: Option<u64>,
}

/// What a member says, with texts as sequences of characters.
pub struct JsonMemberView {
    pub key: Seq<char>,
    pub fields: Seq<JsonFieldView>,
}

impl View for JsonField {
    type V = JsonFieldView;

    open spec fn view(&self) -> JsonFieldView {
        JsonFieldView { key: self.key@, text: text::text_of(self.text), unsigned: self.unsigned }
    }
}

impl View for JsonMember {
    type V = JsonMemberView;

    open spec fn view(&self) -> JsonMemberView {
        JsonMemberView {
            key: self.key@,
            fields: fields_of(self.fields@),
        }
    }
}

/// What the fields of a list say.
pub open spec fn fields_of(v: Seq<JsonField>) -> Seq<JsonFieldView> {
    Seq::new(v.len(), |i: int| v[i]@)
}

/// What the members of a list say.
pub open spec fn members(v: Seq<JsonMember>) -> Seq<JsonMemberView> {
    Seq::new(v.len(), |i: int| v[i]@)
}

/// The members of the outermost object that a JSON text holds: none for any other value. An error
/// carries the reason why the text is no JSON.
pub uninterp spec fn json_outline(text: Seq<char>) -> Result<Seq<JsonMemberView>, Seq<char>>;

/// The compact form of the value that a JSON text holds.
pub uninterp spec fn json_compact(text: Seq<char>) -> Option<Seq<char>>;

/// The bytes of a text are JSON.
pub uninterp spec fn json_bytes(bytes: Seq<u8>) -> bool;

/// Whether two texts hold equal JSON values, if both are JSON.
pub uninterp spec fn json_equal(a: Seq<char>, b: Seq<char>) -> Option<bool>;

/// An object with one member, which is an object with two strings, in compact form.
pub uninterp spec fn json_texts(
    outer: Seq<char>,
    a: Seq<char>,
    text_a: Seq<char>,
    b: Seq<char>,
    text_b: Seq<char>,
) -> Seq<char>;

/// An object with one member, which is an object with a string and a number, in compact form.
pub uninterp spec fn json_text_number(
    outer: Seq<char>,
    a: Seq<char>,
    text_a: Seq<char>,
    b: Seq<char>,
    number_b: u32,
) -> Seq<char>;

/// The member of the outermost object with the given key.
pub open spec fn member(outline: Seq<JsonMemberView>, key: Seq<char>) -> Option<
    Seq<JsonFieldView>,
>
    decreases outline.len(),
{
    if outline.len() == 0 {
        None
    } else if outline[0].key == key {
        Some(outline[0].fields)
    } else {
        member(outline.skip(1), key)
    }
}

/// The field with the given key.
pub open spec fn field(fields: Seq<JsonFieldView>, key: Seq<char>) -> Option<JsonFieldView>
    decreases fields.len(),
{
    if fields.len() == 0 {
        None
    } else if fields[0].key == key {
        Some(fields[0])
    } else {
        field(fields.skip(1), key)
    }
}

/// The string in the field with the given key.
pub open spec fn field_text(fields: Seq<JsonFieldView>, key: Seq<char>) -> Option<Seq<char>> {
    match field(fields, key) {
        Some(f) => f.text,
        None => None,
    }
}

/// The unsigned integer in the field with the given key.
pub open spec fn field_unsigned(fields: Seq<JsonFieldView>, key: Seq<char>) -> Option<u64> {
    match field(fields, key) {
        Some(f) => f.unsigned,
        None => None,
    }
}

/// An outline that holds one member, and in it two fields.
pub open spec fn pair_outline(
    outer: Seq<char>,
    a: JsonFieldView,
    b: JsonFieldView,
) -> Seq<JsonMemberView> {
    seq![JsonMemberView { key: outer, fields: seq![a, b] }]
}

/// A string field.
pub open spec fn text_field(key: Seq<char>, text: Seq<char>) -> JsonFieldView {
    JsonFieldView { key, text: Some(text), unsigned: None }
}

/// A number field.
pub open spec fn number_field(key: Seq<char>, n: u32) -> JsonFieldView {
    JsonFieldView { key, text: None, unsigned: Some(n as u64) }
}

/// The text of a compact object: it starts and ends with a brace.
pub open spec fn braced(s: Seq<char>) -> bool {
    s.len() >= 2 && s[0] == '{' && s.last() == '}'
}

/// `serde_json::from_str` into a `serde_json::Value`, and the members of that value: the result
/// depends on the text alone.
#[verifier::external_body]
pub(crate) fn read_outline(text: &str) -> (r: Result<Vec<JsonMember>, String>)
    ensures
        match r {
            Ok(m) => json_outline(text@) == Ok::<Seq<JsonMemberView>, Seq<char>>(members(m@)),
            Err(e) => json_outline(text@) == Err::<Seq<JsonMemberView>, Seq<char>>(e@),
        },
{
    let value: serde_json::Value = serde_json::from_str(text).map_err(|e| e.to_string())?;
    let fields = |v: &serde_json::Value| {
        v.as_object().into_iter().flatten().map(|(k, x)| JsonField {
            key: k.clone(),
            text: x.as_str().map(String::from),
            unsigned: x.as_u64(),
        }).collect()
    };
    let outer = value.as_object().into_iter().flatten();
    Ok(outer.map(|(k, v)| JsonMember { key: k.clone(), fields: fields(v) }).collect())
}

/// `serde_json::Value`'s `Display` of what `serde_json::from_str` reads: the result depends on the
/// text alone, and there is one where the text is JSON.
#[verifier::external_body]
pub(crate) fn compact(text: &str) -> (r: Option<String>)
    ensures
        text::text_of(r) == json_compact(text@),
        r is Some <==> json_outline(text@) is Ok,
{
    serde_json::from_str::<serde_json::Value>(text).ok().map(|v| v.to_string())
}

/// `serde_json::from_slice` into a `serde_json::Value`: whether it accepts the bytes depends on them
/// alone.
#[verifier::external_body]
pub(crate) fn is_json(bytes: &[u8]) -> (r: bool)
    ensures
        r == json_bytes(bytes@),
{
    serde_json::from_slice::<serde_json::Value>(bytes).is_ok()
}

/// `==` on the `serde_json::Value`s that `serde_json::from_str` reads: the result depends on the
/// two texts alone, and there is one where both are JSON. A JSON text equals itself: no JSON number
/// is a not-a-number.
#[verifier::external_body]
pub(crate) fn equal(a: &str, b: &str) -> (r: Option<bool>)
    ensures
        r == json_equal(a@, b@),
        r is Some == (json_outline(a@) is Ok && json_outline(b@) is Ok),
        r is Some && a@ == b@ ==> r == Some(true),
{
    let a: serde_json::Value = serde_json::from_str(a).ok()?;
    let b: serde_json::Value = serde_json::from_str(b).ok()?;
    Some(a == b)
}

/// `serde_json::Value`'s `Display` of an object with one member, an object with two strings: the
/// result depends on the five texts alone. Reading it gives the strings back, keys in their order.
#[verifier::external_body]
pub(crate) fn render_texts(outer: &str, a: &str, text_a: &str, b: &str, text_b: &str) -> (r: String)
    requires
        a@ != b@,
    ensures
        r@ == json_texts(outer@, a@, text_a@, b@, text_b@),
        braced(r@),
        ({
            let (x, y) = (text_field(a@, text_a@), text_field(b@, text_b@));
            let read = json_outline(r@);
            ||| read == Ok::<Seq<JsonMemberView>, Seq<char>>(pair_outline(outer@, x, y))
            ||| read == Ok::<Seq<JsonMemberView>, Seq<char>>(pair_outline(outer@, y, x))
        }),
{
    let inner = [(a.to_string(), text_a.into()), (b.to_string(), text_b.into())];
    let inner: serde_json::Map<String, serde_json::Value> = inner.into_iter().collect();
    let whole = [(outer.to_string(), serde_json::Value::Object(inner))];
    serde_json::Value::Object(whole.into_iter().collect()).to_string()
}

/// `serde_json::Value`'s `Display` of an object with one member, an object with a string and a
/// number: the result depends on the five arguments alone. Reading it gives both back, keys in
/// their order.
#[verifier::external_body]
pub(crate) fn render_text_number(outer: &str, a: &str, text_a: &str, b: &str, number_b: u32) -> (r:
    String)
    requires
        a@ != b@,
    ensures
        r@ == json_text_number(outer@, a@, text_a@, b@, number_b),
        braced(r@),
        ({
            let (x, y) = (text_field(a@, text_a@), number_field(b@, number_b));
            let read = json_outline(r@);
            ||| read == Ok::<Seq<JsonMemberView>, Seq<char>>(pair_outline(outer@, x, y))
            ||| read == Ok::<Seq<JsonMemberView>, Seq<char>>(pair_outline(outer@, y, x))
        }),
{
    let inner = [(a.to_string(), text_a.into()), (b.to_string(), number_b.into())];
    let inner: serde_json::Map<String, serde_json::Value> = inner.into_iter().collect();
    let whole = [(outer.to_string(), serde_json::Value::Object(inner))];
    serde_json::Value::Object(whole.into_iter().collect()).to_string()
}

/// Finds the fields of the member with the given key.
pub fn find_member<'a>(outline: &'a Vec<JsonMember>, key: &str) -> (r: Option<&'a Vec<JsonField>>)
    ensures
        match r {
            Some(f) => member(members(outline@), key@) == Some(fields_of(f@)),
            None => member(members(outline@), key@) is None,
        },
{
    let wanted = key.to_string();
    let ghost all = members(outline@);
    let mut i: usize = 0;
    assert(all.skip(0) =~= all);
    while i < outline.len()
        invariant
            i <= outline@.len(),
            wanted@ == key@,
            all == members(outline@),
            member(all, key@) == member(all.skip(i as int), key@),
        decreases outline@.len() - i,
    {
        assert(all.skip(i as int)[0] == outline@[i as int]@);
        assert(all.skip(i as int).skip(1) =~= all.skip(i + 1));
        if outline[i].key == wanted {
            return Some(&outline[i].fields);
        }
        i += 1;
    }
    None
}

fn find_field<'a>(fields: &'a Vec<JsonField>, key: &str) -> (r: Option<&'a JsonField>)
    ensures
        match r {
            Some(f) => field(fields_of(fields@), key@) == Some(f@),
            None => field(fields_of(fields@), key@) is None,
        },
{
    let wanted = key.to_string();
    let ghost all = fields_of(fields@);
    let mut i: usize = 0;
    assert(all.skip(0) =~= all);
    while i < fields.len()
        invariant
            i <= fields@.len(),
            wanted@ == key@,
            all == fields_of(fields@),
            field(all, key@) == field(all.skip(i as int), key@),
        decreases fields@.len() - i,
    {
        assert(all.skip(i as int)[0] == fields@[i as int]@);
        assert(all.skip(i as int).skip(1) =~= all.skip(i + 1));
        if fields[i].key == wanted {
            return Some(&fields[i]);
        }
        i += 1;
    }
    None
}

/// Finds the string in the field with the given key.
pub fn find_text(fields: &Vec<JsonField>, key: &str) -> (r: Option<String>)
    ensures
        text::text_of(r) == field_text(fields_of(fields@), key@),
{
    match find_field(fields, key) {
        Some(f) => match &f.text {
            Some(t) => Some(t.clone()),
            None => None,
        },
        None => None,
    }
}

/// Finds the unsigned integer in the field with the given key.
pub fn find_unsigned(fields: &Vec<JsonField>, key: &str) -> (r: Option<u64>)
    ensures
        r == field_unsigned(fields_of(fields@), key@),
{
    match find_field(fields, key) {
        Some(f) => f.unsigned,
        None => None,
    }
}

} // verus!
