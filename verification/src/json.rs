//! JSON documents, as the `serde_json` crate has them.

use crate::text;
use serde_json::Value;
use vstd::prelude::*;

verus! {

/// `serde_json::Value`, a JSON document.
#[verifier::external_type_specification]
#[verifier::external_body]
pub struct ExValue(Value);

/// A JSON number: one that a `u64` holds, a negative one that an `i64` holds, or
/// the bits of a floating-point number.
pub enum NumberView {
    Natural(u64),
    Negative(i64),
    Real(u64),
}

/// A JSON document as plain values.
pub enum JsonView {
    Null,
    Bool(bool),
    Number(NumberView),
    Text(Seq<char>),
    Array(Seq<JsonView>),
    Object(Map<Seq<char>, JsonView>),
}

/// What a document holds.
pub uninterp spec fn json_tree(v: Value) -> JsonView;

/// What some documents hold.
pub open spec fn trees(s: Seq<Value>) -> Seq<JsonView> {
    s.map_values(|v: Value| json_tree(v))
}

/// The document that some bytes write, if they write one.
pub uninterp spec fn json_document(bytes: Seq<u8>) -> Option<JsonView>;

/// The text that writes a document.
pub uninterp spec fn json_text(tree: JsonView) -> Seq<char>;

/// The field `key` of a document: only an object has fields.
pub open spec fn field(tree: JsonView, key: Seq<char>) -> Option<JsonView> {
    match tree {
        JsonView::Object(fields) => if fields.contains_key(key) {
            Some(fields[key])
        } else {
            None
        },
        _ => None,
    }
}

/// The document's natural number, if it is one.
pub open spec fn natural_in(tree: JsonView) -> Option<u64> {
    match tree {
        JsonView::Number(NumberView::Natural(n)) => Some(n),
        _ => None,
    }
}

/// The document's text, if it is one.
pub open spec fn text_in(tree: JsonView) -> Option<Seq<char>> {
    match tree {
        JsonView::Text(s) => Some(s),
        _ => None,
    }
}

/// The document's truth value, if it is one.
pub open spec fn bool_in(tree: JsonView) -> Option<bool> {
    match tree {
        JsonView::Bool(b) => Some(b),
        _ => None,
    }
}

/// The document's elements, if it is an array.
pub open spec fn elements_in(tree: JsonView) -> Option<Seq<JsonView>> {
    match tree {
        JsonView::Array(s) => Some(s),
        _ => None,
    }
}

/// The natural number in a field.
pub open spec fn natural_field(tree: JsonView, key: Seq<char>) -> Option<u64> {
    match field(tree, key) {
        Some(v) => natural_in(v),
        None => None,
    }
}

/// The text in a field.
pub open spec fn text_field(tree: JsonView, key: Seq<char>) -> Option<Seq<char>> {
    match field(tree, key) {
        Some(v) => text_in(v),
        None => None,
    }
}

/// The truth value in a field.
pub open spec fn bool_field(tree: JsonView, key: Seq<char>) -> Option<bool> {
    match field(tree, key) {
        Some(v) => bool_in(v),
        None => None,
    }
}

/// The fields that pairs name, one after the other: of two with one name the
/// later counts.
pub open spec fn fields_of(pairs: Seq<(Seq<char>, JsonView)>) -> Map<Seq<char>, JsonView>
    decreases pairs.len(),
{
    if pairs.len() == 0 {
        Map::empty()
    } else {
        fields_of(pairs.drop_last()).insert(pairs.last().0, pairs.last().1)
    }
}

/// Names and values of some fields as plain values.
pub open spec fn field_views(pairs: Seq<(String, Value)>) -> Seq<(Seq<char>, JsonView)> {
    pairs.map_values(|p: (String, Value)| (p.0@, json_tree(p.1)))
}

/// `serde_json::from_slice` into a `Value`: the document that the bytes write,
/// which depends on them alone.
#[verifier::external_body]
pub(crate) fn parse(bytes: &[u8]) -> (r: Option<Value>)
    ensures
        json_document(bytes@) == (match r {
            Some(v) => Some(json_tree(v)),
            None => None::<JsonView>,
        }),
{
    serde_json::from_slice::<Value>(bytes).ok()
}

/// The document that a text writes, if it writes one.
pub uninterp spec fn json_document_in(s: Seq<char>) -> Option<JsonView>;

/// `serde_json::from_str` into a `Value`: the document that the text writes,
/// which depends on it alone.
#[verifier::external_body]
pub(crate) fn parse_text(s: &str) -> (r: Option<Value>)
    ensures
        json_document_in(s@) == (match r {
            Some(v) => Some(json_tree(v)),
            None => None::<JsonView>,
        }),
{
    serde_json::from_str::<Value>(s).ok()
}

/// A character that may stand around a document.
pub open spec fn is_space(c: char) -> bool {
    c == ' ' || c == '\n' || c == '\t' || c == '\r'
}

/// A text without the space around it.
pub open spec fn without_space(s: Seq<char>) -> Seq<char>
    decreases s.len(),
{
    if s.len() > 0 && is_space(s[0]) {
        without_space(s.skip(1))
    } else if s.len() > 0 && is_space(s.last()) {
        without_space(s.drop_last())
    } else {
        s
    }
}

/// The `u32` that a text writes, if it writes one: digits without a leading zero,
/// with space around them or without.
pub open spec fn json_u32(s: Seq<char>) -> Option<u32> {
    let t = without_space(s);
    if t.len() > 0 && (forall|i: int| 0 <= i < t.len() ==> text::is_digit(#[trigger] t[i])) && (
    t.len() == 1 || t[0] != '0') && text::digits_value(t) <= u32::MAX {
        Some(text::digits_value(t) as u32)
    } else {
        None
    }
}

/// `serde_json::from_str` into a `u32`: the number that the text writes as digits
/// alone. A sign, a fraction or an exponent makes it no `u32`.
#[verifier::external_body]
pub(crate) fn parse_u32(s: &str) -> (r: Option<u32>)
    ensures
        r == json_u32(s@),
{
    serde_json::from_str::<u32>(s).ok()
}

/// `Value::is_object`: whether the document is an object.
#[verifier::external_body]
pub(crate) fn is_object(v: &Value) -> (r: bool)
    ensures
        r == (json_tree(*v) is Object),
{
    v.is_object()
}

/// `Value::to_string`: the text that writes the document, which depends on what
/// the document holds alone.
#[verifier::external_body]
pub(crate) fn render(v: &Value) -> (r: String)
    ensures
        r@ == json_text(json_tree(*v)),
{
    v.to_string()
}

/// `Value::get` with a text: the field of that name.
#[verifier::external_body]
pub(crate) fn get<'a>(v: &'a Value, key: &str) -> (r: Option<&'a Value>)
    ensures
        field(json_tree(*v), key@) == (match r {
            Some(x) => Some(json_tree(*x)),
            None => None::<JsonView>,
        }),
{
    v.get(key)
}

/// `Value::as_array`: the elements of an array.
#[verifier::external_body]
pub(crate) fn as_array(v: &Value) -> (r: Option<&Vec<Value>>)
    ensures
        elements_in(json_tree(*v)) == (match r {
            Some(x) => Some(trees(x@)),
            None => None::<Seq<JsonView>>,
        }),
{
    v.as_array()
}

/// `Value::as_str`: the text of a text.
#[verifier::external_body]
pub(crate) fn as_str(v: &Value) -> (r: Option<&str>)
    ensures
        text_in(json_tree(*v)) == (match r {
            Some(x) => Some(x@),
            None => None::<Seq<char>>,
        }),
{
    v.as_str()
}

/// `Value::as_u64`: the number of an integer that a `u64` holds.
#[verifier::external_body]
pub(crate) fn as_u64(v: &Value) -> (r: Option<u64>)
    ensures
        r == natural_in(json_tree(*v)),
{
    v.as_u64()
}

/// `Value::as_bool`: the truth value of a truth value.
#[verifier::external_body]
pub(crate) fn as_bool(v: &Value) -> (r: Option<bool>)
    ensures
        r == bool_in(json_tree(*v)),
{
    v.as_bool()
}

/// `Value::Null`: the null document.
#[verifier::external_body]
pub(crate) fn null() -> (r: Value)
    ensures
        json_tree(r) == JsonView::Null,
{
    Value::Null
}

/// `Value::String`: a text.
#[verifier::external_body]
pub(crate) fn of_text(s: String) -> (r: Value)
    ensures
        json_tree(r) == JsonView::Text(s@),
{
    Value::String(s)
}

/// `Value::from` a `u64`: a number.
#[verifier::external_body]
pub(crate) fn of_u64(n: u64) -> (r: Value)
    ensures
        json_tree(r) == JsonView::Number(NumberView::Natural(n)),
{
    Value::from(n)
}

/// An integer as a number.
pub open spec fn integer(n: i64) -> JsonView {
    JsonView::Number(
        if n < 0 {
            NumberView::Negative(n)
        } else {
            NumberView::Natural(n as u64)
        },
    )
}

/// `Value::from` an `i64`: a number.
#[verifier::external_body]
pub(crate) fn of_i64(n: i64) -> (r: Value)
    ensures
        json_tree(r) == integer(n),
{
    Value::from(n)
}

/// `Value::Array`: an array.
#[verifier::external_body]
pub(crate) fn of_elements(v: Vec<Value>) -> (r: Value)
    ensures
        json_tree(r) == JsonView::Array(trees(v@)),
{
    Value::Array(v)
}

/// The pairs have names of their own each.
pub open spec fn distinct_names(pairs: Seq<(String, Value)>) -> bool {
    forall|i: int, j: int|
        0 <= i < j < pairs.len() ==> (#[trigger] pairs[i]).0@ != (#[trigger] pairs[j]).0@
}

/// `Value::from_iter` over pairs with different names: an object with these
/// fields.
#[verifier::external_body]
pub(crate) fn of_fields(pairs: Vec<(String, Value)>) -> (r: Value)
    requires
        distinct_names(pairs@),
    ensures
        json_tree(r) == JsonView::Object(fields_of(field_views(pairs@))),
{
    pairs.into_iter().collect()
}

/// An object in the making.
pub(crate) struct Fields {
    pub(crate) pairs: Vec<(String, Value)>,
}

impl Fields {
    /// The fields so far.
    pub(crate) open spec fn so_far(&self) -> Map<Seq<char>, JsonView> {
        fields_of(field_views(self.pairs@))
    }

    pub(crate) fn new() -> (r: Fields)
        ensures
            r.so_far() == Map::<Seq<char>, JsonView>::empty(),
    {
        let r = Fields { pairs: Vec::new() };
        assert(field_views(r.pairs@) =~= Seq::empty());
        r
    }

    /// Adds a field.
    pub(crate) fn put(&mut self, name: &str, v: Value)
        ensures
            final(self).so_far() == old(self).so_far().insert(name@, json_tree(v)),
    {
        let ghost pre = self.pairs@;
        self.pairs.push((name.to_owned(), v));
        proof {
            let post = field_views(self.pairs@);
            assert(post.drop_last() =~= field_views(pre));
            assert(post.last() == (name@, json_tree(v)));
        }
    }

    /// Adds a text.
    pub(crate) fn text(&mut self, name: &str, s: &str)
        ensures
            final(self).so_far() == old(self).so_far().insert(name@, JsonView::Text(s@)),
    {
        self.put(name, of_text(s.to_owned()));
    }

    /// Adds a number.
    pub(crate) fn number(&mut self, name: &str, n: u64)
        ensures
            final(self).so_far() == old(self).so_far().insert(
                name@,
                JsonView::Number(NumberView::Natural(n)),
            ),
    {
        self.put(name, of_u64(n));
    }

    /// Adds a number.
    pub(crate) fn integer(&mut self, name: &str, n: i64)
        ensures
            final(self).so_far() == old(self).so_far().insert(name@, integer(n)),
    {
        self.put(name, of_i64(n));
    }

    /// The object.
    pub(crate) fn done(self) -> (r: Value)
        ensures
            json_tree(r) == JsonView::Object(self.so_far()),
    {
        let ghost all = field_views(self.pairs@);
        let mut rest = self.pairs;
        let mut kept: Vec<(String, Value)> = Vec::new();
        proof {
            assert(field_views(kept@) =~= Seq::empty());
            assert(fields_of(all).union_prefer_right(Map::empty()) =~= fields_of(all));
        }
        while rest.len() > 0
            invariant
                distinct_names(kept@),
                fields_of(all) == fields_of(field_views(rest@)).union_prefer_right(
                    fields_of(field_views(kept@)),
                ),
            decreases rest@.len(),
        {
            let ghost was = rest@;
            let ghost had = kept@;
            match rest.pop() {
                None => {},
                Some((name, v)) => {
                    proof {
                        let pairs = field_views(was);
                        assert(pairs.drop_last() =~= field_views(rest@));
                        assert(pairs.last() == (name@, json_tree(v)));
                    }
                    if !has_name(&kept, name.as_str()) {
                        let ghost label = name@;
                        let ghost tree = json_tree(v);
                        kept.push((name, v));
                        proof {
                            let pairs = field_views(kept@);
                            assert(pairs.drop_last() =~= field_views(had));
                            assert(pairs.last() == (label, tree));
                        }
                    }
                    proof {
                        named_fields(had, name@);
                        assert(fields_of(all) =~= fields_of(
                            field_views(rest@),
                        ).union_prefer_right(fields_of(field_views(kept@))));
                    }
                },
            }
        }
        proof {
            assert(field_views(rest@) =~= Seq::empty());
            assert(fields_of(all) =~= fields_of(field_views(kept@)));
        }
        of_fields(kept)
    }
}

/// Whether there is a pair with the name.
fn has_name(pairs: &Vec<(String, Value)>, name: &str) -> (r: bool)
    ensures
        r == exists|i: int| 0 <= i < pairs@.len() && (#[trigger] pairs@[i]).0@ == name@,
{
    let mut i: usize = 0;
    while i < pairs.len()
        invariant
            i <= pairs@.len(),
            forall|x: int| 0 <= x < i ==> (#[trigger] pairs@[x]).0@ != name@,
        decreases pairs@.len() - i,
    {
        if text::same_text(pairs[i].0.as_str(), name) {
            return true;
        }
        i = i + 1;
    }
    false
}

/// An object has the fields that a pair names.
proof fn named_fields(pairs: Seq<(String, Value)>, name: Seq<char>)
    ensures
        fields_of(field_views(pairs)).contains_key(name) <==> exists|i: int|
            0 <= i < pairs.len() && (#[trigger] pairs[i]).0@ == name,
    decreases pairs.len(),
{
    if pairs.len() > 0 {
        let init = pairs.drop_last();
        named_fields(init, name);
        assert(field_views(pairs).drop_last() =~= field_views(init));
        assert(field_views(pairs).last().0 == pairs.last().0@);
        if exists|i: int| 0 <= i < pairs.len() && (#[trigger] pairs[i]).0@ == name {
            let i = choose|i: int| 0 <= i < pairs.len() && (#[trigger] pairs[i]).0@ == name;
            if i < init.len() {
                assert(init[i].0@ == name);
            }
        }
        if exists|i: int| 0 <= i < init.len() && (#[trigger] init[i]).0@ == name {
            let i = choose|i: int| 0 <= i < init.len() && (#[trigger] init[i]).0@ == name;
            assert(pairs[i].0@ == name);
        }
        assert(pairs[pairs.len() - 1] == pairs.last());
    }
}

/// The number of a natural number as a document.
pub open spec fn number(n: int) -> JsonView {
    JsonView::Number(NumberView::Natural(n as u64))
}

/// The natural number in a field.
pub(crate) fn get_u64(v: &Value, key: &str) -> (r: Option<u64>)
    ensures
        r == natural_field(json_tree(*v), key@),
{
    match get(v, key) {
        Some(x) => as_u64(x),
        None => None,
    }
}

/// The text in a field.
pub(crate) fn get_str<'a>(v: &'a Value, key: &str) -> (r: Option<&'a str>)
    ensures
        text_field(json_tree(*v), key@) == (match r {
            Some(x) => Some(x@),
            None => None::<Seq<char>>,
        }),
{
    match get(v, key) {
        Some(x) => as_str(x),
        None => None,
    }
}

/// The truth value in a field.
pub(crate) fn get_bool(v: &Value, key: &str) -> (r: Option<bool>)
    ensures
        r == bool_field(json_tree(*v), key@),
{
    match get(v, key) {
        Some(x) => as_bool(x),
        None => None,
    }
}

} // verus!
