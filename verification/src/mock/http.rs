//! What a mock worker answers over HTTP: the bodies that it reads, and the ones
//! that it sends.

use super::grpc::GenEvent;
use super::sim::Admitted;
use super::sim::SimLoad;
use super::sim::SimView;
use super::sim::SimWorker;
use crate::json;
use crate::json::bool_field;
use crate::json::field;
use crate::json::integer;
use crate::json::json_document;
use crate::json::json_tree;
use crate::json::natural_field;
use crate::json::natural_in;
use crate::json::number;
use crate::json::text_field;
use crate::json::text_in;
use crate::json::Fields;
use crate::json::JsonView;
use crate::text;
use serde_json::Value;
use vstd::prelude::*;
use vstd::string::StringSliceAdditionalSpecFns;
use vstd::utf8::char_is_scalar;
use vstd::utf8::encode_scalar;
use vstd::utf8::encode_utf8;

verus! {

// ── Reading a body ──────────────────────────────────────────────────────────

/// The naturals of a list, cut down to 32 bits; what is none is left out.
pub open spec fn naturals_of(items: Seq<JsonView>) -> Seq<u32>
    decreases items.len(),
{
    if items.len() == 0 {
        Seq::empty()
    } else {
        let init = naturals_of(items.drop_last());
        match natural_in(items.last()) {
            Some(n) => init.push(n as u32),
            None => init,
        }
    }
}

/// The token ids of a body: `input_ids`, or its first list if it is a list of
/// lists.
pub open spec fn input_ids_of(body: JsonView) -> Option<Seq<u32>> {
    match field(body, "input_ids"@) {
        Some(JsonView::Array(items)) => Some(
            if items.len() > 0 && items[0] is Array {
                naturals_of(items[0]->Array_0)
            } else {
                naturals_of(items)
            },
        ),
        _ => None,
    }
}

pub(crate) fn naturals(items: &Vec<Value>) -> (r: Vec<u32>)
    ensures
        r@ == naturals_of(json::trees(items@)),
{
    let mut out: Vec<u32> = Vec::new();
    let mut i: usize = 0;
    assert(json::trees(items@.take(0)) =~= Seq::<JsonView>::empty());
    while i < items.len()
        invariant
            i <= items@.len(),
            out@ == naturals_of(json::trees(items@.take(i as int))),
        decreases items@.len() - i,
    {
        proof {
            let now = json::trees(items@.take(i + 1));
            assert(now.drop_last() =~= json::trees(items@.take(i as int)));
            assert(now.last() == json_tree(items@[i as int]));
        }
        match json::as_u64(&items[i]) {
            Some(n) => {
                out.push(#[verifier::truncate] (n as u32));
            },
            None => {},
        }
        i = i + 1;
    }
    assert(items@.take(i as int) =~= items@);
    out
}

/// The token ids of a body.
pub fn extract_input_ids(v: &Value) -> (r: Option<Vec<u32>>)
    ensures
        input_ids_of(json_tree(*v)) == (match r {
            Some(ids) => Some(ids@),
            None => None::<Seq<u32>>,
        }),
{
    let ids = match json::get(v, "input_ids") {
        Some(x) => x,
        None => {
            return None;
        },
    };
    let items = match json::as_array(ids) {
        Some(x) => x,
        None => {
            return None;
        },
    };
    if items.len() > 0 {
        proof {
            assert(json::trees(items@)[0] == json_tree(items@[0]));
        }
        match json::as_array(&items[0]) {
            Some(first) => {
                return Some(naturals(first));
            },
            None => {},
        }
    }
    Some(naturals(items))
}

/// The texts of a list; what is none is left out.
pub open spec fn texts_of(items: Seq<JsonView>) -> Seq<Seq<char>>
    decreases items.len(),
{
    if items.len() == 0 {
        Seq::empty()
    } else {
        let init = texts_of(items.drop_last());
        match text_in(items.last()) {
            Some(s) => init.push(s),
            None => init,
        }
    }
}

/// The images of a body: `image_data`, a text or a list of texts.
pub open spec fn images_of(body: JsonView) -> Seq<Seq<char>> {
    match field(body, "image_data"@) {
        Some(JsonView::Text(s)) => seq![s],
        Some(JsonView::Array(items)) => texts_of(items),
        _ => Seq::empty(),
    }
}

/// The images of a body. They are never decoded: their bytes are their identity.
pub fn extract_images(v: &Value) -> (r: Vec<&str>)
    ensures
        text::texts(r@) == images_of(json_tree(*v)),
{
    let mut out: Vec<&str> = Vec::new();
    proof {
        assert(text::texts(out@) =~= Seq::empty());
    }
    let data = match json::get(v, "image_data") {
        Some(x) => x,
        None => {
            return out;
        },
    };
    match json::as_str(data) {
        Some(s) => {
            out.push(s);
            assert(text::texts(out@) =~= seq![s@]);
            return out;
        },
        None => {},
    }
    match json::as_array(data) {
        None => {},
        Some(items) => {
            let mut i: usize = 0;
            assert(json::trees(items@.take(0)) =~= Seq::<JsonView>::empty());
            while i < items.len()
                invariant
                    i <= items@.len(),
                    text::texts(out@) == texts_of(json::trees(items@.take(i as int))),
                decreases items@.len() - i,
            {
                let ghost was = out@;
                proof {
                    let now = json::trees(items@.take(i + 1));
                    assert(now.drop_last() =~= json::trees(items@.take(i as int)));
                    assert(now.last() == json_tree(items@[i as int]));
                }
                match json::as_str(&items[i]) {
                    Some(s) => {
                        out.push(s);
                        assert(text::texts(out@) =~= text::texts(was).push(s@));
                    },
                    None => {},
                }
                i = i + 1;
            }
            assert(items@.take(i as int) =~= items@);
        },
    }
    out
}

/// The output length of a body: `sampling_params.max_new_tokens`, or else
/// `max_new_tokens`, or else `max_tokens`.
pub open spec fn max_new_tokens_of(body: JsonView) -> Option<u32> {
    let nested = match field(body, "sampling_params"@) {
        Some(p) => natural_field(p, "max_new_tokens"@),
        None => None,
    };
    match nested {
        Some(n) => Some(n as u32),
        None => match natural_field(body, "max_new_tokens"@) {
            Some(n) => Some(n as u32),
            None => match natural_field(body, "max_tokens"@) {
                Some(n) => Some(n as u32),
                None => None,
            },
        },
    }
}

/// The output length of a body.
pub fn extract_max_new_tokens(v: &Value) -> (r: Option<u32>)
    ensures
        r == max_new_tokens_of(json_tree(*v)),
{
    match json::get(v, "sampling_params") {
        Some(p) => match json::get_u64(p, "max_new_tokens") {
            Some(n) => {
                return Some(#[verifier::truncate] (n as u32));
            },
            None => {},
        },
        None => {},
    }
    match json::get_u64(v, "max_new_tokens") {
        Some(n) => Some(#[verifier::truncate] (n as u32)),
        None => match json::get_u64(v, "max_tokens") {
            Some(n) => Some(#[verifier::truncate] (n as u32)),
            None => None,
        },
    }
}

/// The output length of a chat or completion body: `max_tokens`, or else
/// `max_new_tokens`.
pub open spec fn max_tokens_of(body: JsonView) -> Option<u32> {
    match natural_field(body, "max_tokens"@) {
        Some(n) => Some(n as u32),
        None => match natural_field(body, "max_new_tokens"@) {
            Some(n) => Some(n as u32),
            None => None,
        },
    }
}

/// The output length of a chat or completion body.
pub fn extract_max_tokens(v: &Value) -> (r: Option<u32>)
    ensures
        r == max_tokens_of(json_tree(*v)),
{
    match json::get_u64(v, "max_tokens") {
        Some(n) => Some(#[verifier::truncate] (n as u32)),
        None => match json::get_u64(v, "max_new_tokens") {
            Some(n) => Some(#[verifier::truncate] (n as u32)),
            None => None,
        },
    }
}

/// The contents of messages; a message without a text is left out.
pub open spec fn contents_of(messages: Seq<JsonView>) -> Seq<Seq<char>>
    decreases messages.len(),
{
    if messages.len() == 0 {
        Seq::empty()
    } else {
        let init = contents_of(messages.drop_last());
        match text_field(messages.last(), "content"@) {
            Some(s) => init.push(s),
            None => init,
        }
    }
}

/// The prompt of a body: the contents of its messages, or else `prompt`, or else
/// `text`, or else `inputs`.
pub open spec fn prompt_of(body: JsonView) -> Seq<char> {
    match field(body, "messages"@) {
        Some(JsonView::Array(messages)) => text::joined(contents_of(messages), " "@),
        _ => match text_field(body, "prompt"@) {
            Some(s) => s,
            None => match text_field(body, "text"@) {
                Some(s) => s,
                None => match text_field(body, "inputs"@) {
                    Some(s) => s,
                    None => ""@,
                },
            },
        },
    }
}

fn message_texts<'a>(messages: &'a Vec<Value>) -> (r: Vec<&'a str>)
    ensures
        text::texts(r@) == contents_of(json::trees(messages@)),
{
    let mut out: Vec<&str> = Vec::new();
    let mut i: usize = 0;
    proof {
        assert(text::texts(out@) =~= Seq::empty());
        assert(json::trees(messages@.take(0)) =~= Seq::<JsonView>::empty());
    }
    while i < messages.len()
        invariant
            i <= messages@.len(),
            text::texts(out@) == contents_of(json::trees(messages@.take(i as int))),
        decreases messages@.len() - i,
    {
        let ghost was = out@;
        proof {
            let now = json::trees(messages@.take(i + 1));
            assert(now.drop_last() =~= json::trees(messages@.take(i as int)));
            assert(now.last() == json_tree(messages@[i as int]));
        }
        match json::get_str(&messages[i], "content") {
            Some(s) => {
                out.push(s);
                assert(text::texts(out@) =~= text::texts(was).push(s@));
            },
            None => {},
        }
        i = i + 1;
    }
    assert(messages@.take(i as int) =~= messages@);
    out
}

/// The prompt of a body.
pub fn extract_prompt_text(v: &Value) -> (r: String)
    ensures
        r@ == prompt_of(json_tree(*v)),
{
    match json::get(v, "messages") {
        Some(m) => match json::as_array(m) {
            Some(messages) => {
                return text::join(&message_texts(messages), " ");
            },
            None => {},
        },
        None => {},
    }
    match json::get_str(v, "prompt") {
        Some(s) => {
            return s.to_owned();
        },
        None => {},
    }
    match json::get_str(v, "text") {
        Some(s) => {
            return s.to_owned();
        },
        None => {},
    }
    match json::get_str(v, "inputs") {
        Some(s) => s.to_owned(),
        None => "".to_owned(),
    }
}

/// One step of a word's hash.
pub open spec fn word_hash(bytes: Seq<u8>) -> u32
    decreases bytes.len(),
{
    if bytes.len() == 0 {
        2_166_136_261
    } else {
        (word_hash(bytes.drop_last()) ^ (bytes.last() as u32)).wrapping_mul(16_777_619)
    }
}

/// The token that stands for a word.
pub open spec fn word_token(bytes: Seq<u8>) -> u32 {
    word_hash(bytes) % 30_000
}

/// The token that stands for a word: a hash of its bytes.
pub fn hash_word(w: &str) -> (r: u32)
    ensures
        r == word_token(w.spec_bytes()),
{
    let bytes = w.as_bytes();
    let mut h: u32 = 2_166_136_261;
    let mut i: usize = 0;
    assert(bytes@.take(0) =~= Seq::<u8>::empty());
    while i < bytes.len()
        invariant
            i <= bytes@.len(),
            h == word_hash(bytes@.take(i as int)),
        decreases bytes@.len() - i,
    {
        proof {
            assert(bytes@.take(i + 1).drop_last() =~= bytes@.take(i as int));
        }
        h = (h ^ (bytes[i] as u32)).wrapping_mul(16_777_619);
        i = i + 1;
    }
    assert(bytes@.take(i as int) =~= bytes@);
    h % 30_000
}

/// The tokens that stand for words.
pub open spec fn word_tokens(words: Seq<Seq<char>>) -> Seq<u32> {
    words.map_values(|w: Seq<char>| word_token(encode_utf8(w)))
}

/// The hash of more bytes behind some.
pub open spec fn word_hash_on(h: u32, bytes: Seq<u8>) -> u32
    decreases bytes.len(),
{
    if bytes.len() == 0 {
        h
    } else {
        (word_hash_on(h, bytes.drop_last()) ^ (bytes.last() as u32)).wrapping_mul(16_777_619)
    }
}

proof fn word_hash_of_sum(a: Seq<u8>, b: Seq<u8>)
    ensures
        word_hash(a + b) == word_hash_on(word_hash(a), b),
    decreases b.len(),
{
    if b.len() == 0 {
        assert(a + b =~= a);
    } else {
        word_hash_of_sum(a, b.drop_last());
        assert((a + b).drop_last() =~= a + b.drop_last());
        assert((a + b).last() == b.last());
    }
}

proof fn encoding_of_push(w: Seq<char>, c: char)
    ensures
        encode_utf8(w.push(c)) == encode_utf8(w) + encode_scalar(c as u32),
    decreases w.len(),
{
    let whole = w.push(c);
    if w.len() == 0 {
        reveal_with_fuel(encode_utf8, 2);
        assert(encode_utf8(whole) =~= encode_utf8(w) + encode_scalar(c as u32));
    } else {
        assert(whole.drop_first() =~= w.drop_first().push(c));
        encoding_of_push(w.drop_first(), c);
        assert(encode_utf8(whole) =~= encode_utf8(w) + encode_scalar(c as u32));
    }
}

fn hash_byte(h: u32, b: u8) -> (r: u32)
    ensures
        forall|bytes: Seq<u8>, from: u32| #[trigger]
            word_hash_on(from, bytes) == h ==> word_hash_on(from, bytes.push(b)) == r,
{
    let r: u32 = (h ^ (b as u32)).wrapping_mul(16_777_619);
    proof {
        assert forall|bytes: Seq<u8>, from: u32| #[trigger]
            word_hash_on(from, bytes) == h implies word_hash_on(from, bytes.push(b)) == r by {
            assert(bytes.push(b).drop_last() =~= bytes);
        }
    }
    r
}

/// The hash of one more character.
fn hash_char(h: u32, c: char) -> (r: u32)
    ensures
        r == word_hash_on(h, encode_scalar(c as u32)),
{
    let s: u32 = c as u32;
    let last: u8 = 0x80 | (#[verifier::truncate] ((s & 0x3F) as u8));
    let second: u8 = 0x80 | (#[verifier::truncate] (((s >> 6) & 0x3F) as u8));
    let third: u8 = 0x80 | (#[verifier::truncate] (((s >> 12) & 0x3F) as u8));
    let ghost e = Seq::<u8>::empty();
    assert(word_hash_on(h, e) == h);
    if s <= 0x7F {
        let b: u8 = #[verifier::truncate] ((s & 0x7F) as u8);
        let r = hash_byte(h, b);
        assert(word_hash_on(h, e.push(b)) == r);
        assert(encode_scalar(s) =~= e.push(b));
        r
    } else if s <= 0x7FF {
        let b: u8 = 0xC0 | (#[verifier::truncate] (((s >> 6) & 0x1F) as u8));
        let r1 = hash_byte(h, b);
        assert(word_hash_on(h, e.push(b)) == r1);
        let r = hash_byte(r1, last);
        assert(word_hash_on(h, e.push(b).push(last)) == r);
        assert(encode_scalar(s) =~= e.push(b).push(last));
        r
    } else if s <= 0xFFFF {
        let b: u8 = 0xE0 | (#[verifier::truncate] (((s >> 12) & 0x0F) as u8));
        let r1 = hash_byte(h, b);
        assert(word_hash_on(h, e.push(b)) == r1);
        let r2 = hash_byte(r1, second);
        assert(word_hash_on(h, e.push(b).push(second)) == r2);
        let r = hash_byte(r2, last);
        assert(word_hash_on(h, e.push(b).push(second).push(last)) == r);
        proof {
            char_is_scalar(c);
        }
        assert(encode_scalar(s) =~= e.push(b).push(second).push(last));
        r
    } else {
        let b: u8 = 0xF0 | (#[verifier::truncate] (((s >> 18) & 0x7) as u8));
        let r1 = hash_byte(h, b);
        assert(word_hash_on(h, e.push(b)) == r1);
        let r2 = hash_byte(r1, third);
        assert(word_hash_on(h, e.push(b).push(third)) == r2);
        let r3 = hash_byte(r2, second);
        assert(word_hash_on(h, e.push(b).push(third).push(second)) == r3);
        let r = hash_byte(r3, last);
        assert(word_hash_on(h, e.push(b).push(third).push(second).push(last)) == r);
        assert(encode_scalar(s) =~= e.push(b).push(third).push(second).push(last));
        r
    }
}

/// Stands in for a tokenizer: one token per word of the text.
pub fn synth_token_ids(s: &str) -> (r: Vec<u32>)
    ensures
        r@ == word_tokens(text::words_of(s@)),
{
    let chars = text::chars_of(s);
    let mut out: Vec<u32> = Vec::new();
    let mut inside: bool = false;
    let mut h: u32 = 2_166_136_261;
    let mut i: usize = 0;
    proof {
        assert(s@.take(0) =~= Seq::empty());
        assert(word_tokens(Seq::empty()) =~= Seq::empty());
        assert(encode_utf8(Seq::<char>::empty()) =~= Seq::empty());
    }
    while i < chars.len()
        invariant
            i <= chars@.len(),
            chars@ == s@,
            out@ == word_tokens(text::word_split(s@.take(i as int)).0),
            inside == (text::word_split(s@.take(i as int)).1.len() > 0),
            h == word_hash(encode_utf8(text::word_split(s@.take(i as int)).1)),
        decreases chars@.len() - i,
    {
        let c: char = chars[i];
        let ghost (words, tail) = text::word_split(s@.take(i as int));
        proof {
            let now = s@.take(i + 1);
            assert(now.drop_last() =~= s@.take(i as int));
            assert(now.last() == c);
        }
        if !text::white(c) {
            proof {
                encoding_of_push(tail, c);
                word_hash_of_sum(encode_utf8(tail), encode_scalar(c as u32));
            }
            h = hash_char(h, c);
            inside = true;
        } else if inside {
            out.push(h % 30_000);
            proof {
                assert(word_tokens(words.push(tail)) =~= word_tokens(words).push(
                    word_token(encode_utf8(tail)),
                ));
                assert(encode_utf8(Seq::<char>::empty()) =~= Seq::empty());
            }
            h = 2_166_136_261;
            inside = false;
        }
        i = i + 1;
    }
    assert(s@.take(i as int) =~= s@);
    if inside {
        out.push(h % 30_000);
        proof {
            let (words, tail) = text::word_split(s@);
            assert(word_tokens(words.push(tail)) =~= word_tokens(words).push(
                word_token(encode_utf8(tail)),
            ));
        }
    }
    out
}

/// Texts that begin alike stand for tokens that begin alike: words in front of a
/// space do not depend on what follows it.
pub proof fn shared_words_share_tokens(a: Seq<char>, b: Seq<char>)
    ensures
        word_tokens(text::words_of(a + " "@ + b)) == word_tokens(text::words_of(a)) + word_tokens(
            text::words_of(b),
        ),
{
    text::words_at_space(a, b);
    let x = text::words_of(a);
    let y = text::words_of(b);
    assert(word_tokens(x + y) =~= word_tokens(x) + word_tokens(y));
}

/// A body of `/generate`.
pub struct GenerateBody {
    pub stream: bool,
    pub input_ids: Vec<u32>,
    pub max_new: u32,
    pub images: Vec<String>,
}

/// The body says what the document says.
pub open spec fn body_matches(tree: JsonView, default_tokens: u32, b: GenerateBody) -> bool {
    &&& b.stream == match bool_field(tree, "stream"@) {
        Some(s) => s,
        None => false,
    }
    &&& b.input_ids@ == match input_ids_of(tree) {
        Some(ids) => ids,
        None => word_tokens(text::words_of(prompt_of(tree))),
    }
    &&& b.max_new == match max_new_tokens_of(tree) {
        Some(n) => n,
        None => default_tokens,
    }
    &&& b.images@.map_values(|s: String| s@) == images_of(tree)
}

/// What a document of `/generate` asks for.
pub fn read_body(v: &Value, default_tokens: u32) -> (r: GenerateBody)
    ensures
        body_matches(json_tree(*v), default_tokens, r),
{
    let stream: bool = match json::get_bool(v, "stream") {
        Some(s) => s,
        None => false,
    };
    let input_ids: Vec<u32> = match extract_input_ids(v) {
        Some(ids) => ids,
        None => {
            let prompt = extract_prompt_text(v);
            synth_token_ids(prompt.as_str())
        },
    };
    let max_new: u32 = match extract_max_new_tokens(v) {
        Some(n) => n,
        None => default_tokens,
    };
    let found = extract_images(v);
    let mut images: Vec<String> = Vec::new();
    let mut i: usize = 0;
    while i < found.len()
        invariant
            i <= found@.len(),
            images@.map_values(|s: String| s@) == text::texts(found@).take(i as int),
        decreases found@.len() - i,
    {
        let ghost was = images@;
        images.push(found[i].to_owned());
        proof {
            let f = |s: String| s@;
            assert(images@.map_values(f) =~= was.map_values(f).push(found@[i as int]@));
            assert(text::texts(found@).take(i + 1) =~= text::texts(found@).take(i as int).push(
                found@[i as int]@,
            ));
        }
        i = i + 1;
    }
    assert(text::texts(found@).take(i as int) =~= text::texts(found@));
    GenerateBody { stream, input_ids, max_new, images }
}

/// The document of a body: null if it is none.
pub open spec fn document_or_null(bytes: Seq<u8>) -> JsonView {
    match json_document(bytes) {
        Some(v) => v,
        None => JsonView::Null,
    }
}

/// What a body of `/generate` asks for.
pub fn parse_body(bytes: &[u8], default_tokens: u32) -> (r: GenerateBody)
    ensures
        body_matches(document_or_null(bytes@), default_tokens, r),
{
    match json::parse(bytes) {
        Some(v) => read_body(&v, default_tokens),
        None => read_body(&json::null(), default_tokens),
    }
}

/// A body of `/v1/chat/completions` or `/v1/completions`.
pub struct ChatBody {
    pub stream: bool,
    pub input_ids: Vec<u32>,
    pub max_new: u32,
}

/// The body says what the document says.
pub open spec fn chat_matches(tree: JsonView, default_tokens: u32, b: ChatBody) -> bool {
    &&& b.stream == match bool_field(tree, "stream"@) {
        Some(s) => s,
        None => false,
    }
    &&& b.input_ids@ == word_tokens(text::words_of(prompt_of(tree)))
    &&& b.max_new == match max_tokens_of(tree) {
        Some(n) => n,
        None => default_tokens,
    }
}

/// What a document of a chat or completion asks for.
pub fn read_chat(v: &Value, default_tokens: u32) -> (r: ChatBody)
    ensures
        chat_matches(json_tree(*v), default_tokens, r),
{
    let stream: bool = match json::get_bool(v, "stream") {
        Some(s) => s,
        None => false,
    };
    let prompt = extract_prompt_text(v);
    let max_new: u32 = match extract_max_tokens(v) {
        Some(n) => n,
        None => default_tokens,
    };
    ChatBody { stream, input_ids: synth_token_ids(prompt.as_str()), max_new }
}

/// What a body of a chat or completion asks for.
pub fn parse_chat(bytes: &[u8], default_tokens: u32) -> (r: ChatBody)
    ensures
        chat_matches(document_or_null(bytes@), default_tokens, r),
{
    match json::parse(bytes) {
        Some(v) => read_chat(&v, default_tokens),
        None => read_chat(&json::null(), default_tokens),
    }
}

// ── Writing a response ──────────────────────────────────────────────────────

/// Which shape an answer has.
#[derive(Debug, Clone, Copy, PartialEq, Eq, Structural)]
pub enum Endpoint {
    Chat,
    Completions,
}

/// Ids as a document.
pub open spec fn ids_json(ids: Seq<u32>) -> JsonView {
    JsonView::Array(ids.map_values(|x: u32| number(x as int)))
}

fn ids_value(ids: &Vec<u32>) -> (r: Value)
    ensures
        json_tree(r) == ids_json(ids@),
{
    let mut out: Vec<Value> = Vec::new();
    let mut i: usize = 0;
    while i < ids.len()
        invariant
            i <= ids@.len(),
            json::trees(out@) == ids@.take(i as int).map_values(|x: u32| number(x as int)),
        decreases ids@.len() - i,
    {
        let ghost was = out@;
        out.push(json::of_u64(ids[i] as u64));
        proof {
            assert(json::trees(out@) =~= json::trees(was).push(number(ids@[i as int] as int)));
            assert(ids@.take(i + 1).map_values(|x: u32| number(x as int)) =~= ids@.take(
                i as int,
            ).map_values(|x: u32| number(x as int)).push(number(ids@[i as int] as int)));
        }
        i = i + 1;
    }
    assert(ids@.take(i as int) =~= ids@);
    json::of_elements(out)
}

/// A list of one document as a document.
fn single(v: Value) -> (r: Value)
    ensures
        json_tree(r) == JsonView::Array(seq![json_tree(v)]),
{
    let mut items: Vec<Value> = Vec::new();
    items.push(v);
    assert(json::trees(items@) =~= seq![json_tree(v)]);
    json::of_elements(items)
}

/// How a generation ended, in the answer of `/generate`.
pub open spec fn length_reason(n: int) -> JsonView {
    JsonView::Object(
        Map::empty().insert("type"@, JsonView::Text("length"@)).insert("length"@, number(n)),
    )
}

/// The answer of `/generate`: the whole output at the end, nothing before.
pub open spec fn native_json(adm: Admitted, finished: bool) -> JsonView {
    let n: int = if finished {
        adm.output_ids@.len() as int
    } else {
        0
    };
    JsonView::Object(
        Map::empty().insert(
            "text"@,
            JsonView::Text(
                if finished {
                    "mock"@
                } else {
                    ""@
                },
            ),
        ).insert(
            "output_ids"@,
            ids_json(
                if finished {
                    adm.output_ids@
                } else {
                    Seq::empty()
                },
            ),
        ).insert(
            "meta_info"@,
            JsonView::Object(
                Map::empty().insert("id"@, JsonView::Text(adm.request_id@)).insert(
                    "prompt_tokens"@,
                    number(adm.prompt_tokens as int),
                ).insert("completion_tokens"@, number(n)).insert(
                    "cached_tokens"@,
                    number(adm.cached_tokens as int),
                ).insert(
                    "finish_reason"@,
                    if finished {
                        length_reason(n)
                    } else {
                        JsonView::Null
                    },
                ).insert("worker_port"@, number(adm.worker_port as int)),
            ),
        ),
    )
}

/// The answer of `/generate`.
pub fn native_response(adm: &Admitted, finished: bool) -> (r: Value)
    ensures
        json_tree(r) == native_json(*adm, finished),
{
    let completion: u64 = if finished {
        adm.output_ids.len() as u64
    } else {
        0
    };
    let reason: Value = if finished {
        let mut f = Fields::new();
        f.text("type", "length");
        f.number("length", completion);
        f.done()
    } else {
        json::null()
    };
    let mut meta = Fields::new();
    meta.text("id", adm.request_id.as_str());
    meta.number("prompt_tokens", adm.prompt_tokens as u64);
    meta.number("completion_tokens", completion);
    meta.number("cached_tokens", adm.cached_tokens as u64);
    meta.put("finish_reason", reason);
    meta.number("worker_port", adm.worker_port as u64);
    let ids: Value = if finished {
        ids_value(&adm.output_ids)
    } else {
        ids_value(&Vec::new())
    };
    let mut f = Fields::new();
    f.text(
        "text",
        if finished {
            "mock"
        } else {
            ""
        },
    );
    f.put("output_ids", ids);
    f.put("meta_info", meta.done());
    f.done()
}

/// The token counts of an answer.
pub open spec fn usage_json(prompt: u32, completion: u32, cached: u32) -> JsonView {
    JsonView::Object(
        Map::empty().insert("prompt_tokens"@, number(prompt as int)).insert(
            "completion_tokens"@,
            number(completion as int),
        ).insert("total_tokens"@, number(prompt + completion)).insert(
            "cached_tokens"@,
            number(cached as int),
        ),
    )
}

/// The message of a chat answer.
pub open spec fn mock_message() -> JsonView {
    JsonView::Object(
        Map::empty().insert("role"@, JsonView::Text("assistant"@)).insert(
            "content"@,
            JsonView::Text("mock"@),
        ),
    )
}

/// The one choice of an answer.
pub open spec fn full_choice(endpoint: Endpoint) -> JsonView {
    let index = Map::empty().insert("index"@, number(0));
    JsonView::Object(
        (match endpoint {
            Endpoint::Chat => index.insert("message"@, mock_message()),
            Endpoint::Completions => index.insert("text"@, JsonView::Text("mock"@)),
        }).insert("finish_reason"@, JsonView::Text("stop"@)),
    )
}

/// What an answer is called.
pub open spec fn answer_names(endpoint: Endpoint) -> (Seq<char>, Seq<char>) {
    match endpoint {
        Endpoint::Chat => ("chatcmpl-mock"@, "chat.completion"@),
        Endpoint::Completions => ("cmpl-mock"@, "text_completion"@),
    }
}

/// An answer.
pub open spec fn answer_json(endpoint: Endpoint, model: Seq<char>, usage: JsonView) -> JsonView {
    JsonView::Object(
        Map::empty().insert("id"@, JsonView::Text(answer_names(endpoint).0)).insert(
            "object"@,
            JsonView::Text(answer_names(endpoint).1),
        ).insert("created"@, number(0)).insert("model"@, JsonView::Text(model)).insert(
            "choices"@,
            JsonView::Array(seq![full_choice(endpoint)]),
        ).insert("usage"@, usage),
    )
}

fn answer(endpoint: Endpoint, model: &str, usage: Value) -> (r: Value)
    ensures
        json_tree(r) == answer_json(endpoint, model@, json_tree(usage)),
{
    let mut choice = Fields::new();
    choice.number("index", 0);
    match endpoint {
        Endpoint::Chat => {
            let mut message = Fields::new();
            message.text("role", "assistant");
            message.text("content", "mock");
            choice.put("message", message.done());
        },
        Endpoint::Completions => {
            choice.text("text", "mock");
        },
    }
    choice.text("finish_reason", "stop");
    let mut f = Fields::new();
    match endpoint {
        Endpoint::Chat => {
            f.text("id", "chatcmpl-mock");
            f.text("object", "chat.completion");
        },
        Endpoint::Completions => {
            f.text("id", "cmpl-mock");
            f.text("object", "text_completion");
        },
    }
    f.number("created", 0);
    f.text("model", model);
    f.put("choices", single(choice.done()));
    f.put("usage", usage);
    f.done()
}

/// The canned token counts.
pub open spec fn canned_usage(output_tokens: u32) -> JsonView {
    JsonView::Object(
        Map::empty().insert("prompt_tokens"@, number(1)).insert(
            "completion_tokens"@,
            number(output_tokens as int),
        ).insert("total_tokens"@, number(output_tokens + 1)),
    )
}

/// The canned answer.
pub fn completion(model: &str, output_tokens: u32) -> (r: Value)
    ensures
        json_tree(r) == answer_json(Endpoint::Chat, model@, canned_usage(output_tokens)),
{
    let mut usage = Fields::new();
    usage.number("prompt_tokens", 1);
    usage.number("completion_tokens", output_tokens as u64);
    usage.number("total_tokens", output_tokens as u64 + 1);
    answer(Endpoint::Chat, model, usage.done())
}

/// The counts that an engine's events amount to: every token counts until the
/// engine says how many there were.
pub struct CompletionFold {
    pub completion_tokens: u32,
    pub cached_tokens: u32,
}

/// The counts after one event.
pub open spec fn counts_on(pre: CompletionFold, event: GenEvent, post: CompletionFold) -> bool {
    match event {
        GenEvent::Token { token_id, prompt_tokens, cached_tokens } => {
            &&& post.completion_tokens == pre.completion_tokens + 1
            &&& post.cached_tokens == pre.cached_tokens
        },
        GenEvent::Done { finish_reason, prompt_total, completion_tokens, cached_total } => {
            &&& post.completion_tokens == completion_tokens
            &&& post.cached_tokens == cached_total
        },
    }
}

impl CompletionFold {
    /// Takes one event.
    pub fn step(&mut self, event: &GenEvent)
        requires
            event is Token ==> old(self).completion_tokens < u32::MAX,
        ensures
            counts_on(*old(self), *event, *final(self)),
    {
        match event {
            GenEvent::Token { token_id, prompt_tokens, cached_tokens } => {
                self.completion_tokens = self.completion_tokens + 1;
            },
            GenEvent::Done { finish_reason, prompt_total, completion_tokens, cached_total } => {
                self.completion_tokens = *completion_tokens;
                self.cached_tokens = *cached_total;
            },
        }
    }

    /// The answer that the counts amount to.
    pub fn finish(&self, endpoint: Endpoint, model: &str, prompt_tokens: u32) -> (r: Value)
        requires
            prompt_tokens + self.completion_tokens <= u32::MAX,
        ensures
            json_tree(r) == answer_json(
                endpoint,
                model@,
                usage_json(prompt_tokens, self.completion_tokens, self.cached_tokens),
            ),
    {
        let mut usage = Fields::new();
        usage.number("prompt_tokens", prompt_tokens as u64);
        usage.number("completion_tokens", self.completion_tokens as u64);
        usage.number("total_tokens", prompt_tokens as u64 + self.completion_tokens as u64);
        usage.number("cached_tokens", self.cached_tokens as u64);
        answer(endpoint, model, usage.done())
    }
}

/// The choice of a frame: one token, or the end.
pub open spec fn frame_choice(endpoint: Endpoint, last: bool) -> JsonView {
    let index = Map::empty().insert("index"@, number(0));
    JsonView::Object(
        (match endpoint {
            Endpoint::Chat => index.insert(
                "delta"@,
                JsonView::Object(
                    if last {
                        Map::empty()
                    } else {
                        Map::empty().insert("content"@, JsonView::Text("x"@))
                    },
                ),
            ),
            Endpoint::Completions => index.insert(
                "text"@,
                JsonView::Text(
                    if last {
                        ""@
                    } else {
                        "x"@
                    },
                ),
            ),
        }).insert(
            "finish_reason"@,
            if last {
                JsonView::Text("stop"@)
            } else {
                JsonView::Null
            },
        ),
    )
}

/// What a frame is called.
pub open spec fn frame_names(endpoint: Endpoint) -> (Seq<char>, Seq<char>) {
    match endpoint {
        Endpoint::Chat => ("chatcmpl-mock"@, "chat.completion.chunk"@),
        Endpoint::Completions => ("cmpl-mock"@, "text_completion"@),
    }
}

/// A frame of a stream. Canned frames name no model.
pub open spec fn frame_json(endpoint: Endpoint, model: Option<Seq<char>>, last: bool) -> JsonView {
    let named = Map::empty().insert("id"@, JsonView::Text(frame_names(endpoint).0)).insert(
        "object"@,
        JsonView::Text(frame_names(endpoint).1),
    );
    JsonView::Object(
        (match model {
            Some(m) => named.insert("model"@, JsonView::Text(m)),
            None => named,
        }).insert("choices"@, JsonView::Array(seq![frame_choice(endpoint, last)])),
    )
}

fn frame(endpoint: Endpoint, model: Option<&str>, last: bool) -> (r: Value)
    ensures
        json_tree(r) == frame_json(
            endpoint,
            match model {
                Some(m) => Some(m@),
                None => None,
            },
            last,
        ),
{
    let mut choice = Fields::new();
    choice.number("index", 0);
    match endpoint {
        Endpoint::Chat => {
            let mut delta = Fields::new();
            if !last {
                delta.text("content", "x");
            }
            choice.put("delta", delta.done());
        },
        Endpoint::Completions => {
            choice.text(
                "text",
                if last {
                    ""
                } else {
                    "x"
                },
            );
        },
    }
    if last {
        choice.text("finish_reason", "stop");
    } else {
        choice.put("finish_reason", json::null());
    }
    let mut f = Fields::new();
    match endpoint {
        Endpoint::Chat => {
            f.text("id", "chatcmpl-mock");
            f.text("object", "chat.completion.chunk");
        },
        Endpoint::Completions => {
            f.text("id", "cmpl-mock");
            f.text("object", "text_completion");
        },
    }
    match model {
        Some(m) => {
            f.text("model", m);
        },
        None => {},
    }
    f.put("choices", single(choice.done()));
    f.done()
}

/// A frame with one token, in the shape that the endpoint expects.
pub fn token_chunk(endpoint: Endpoint, model: &str) -> (r: Value)
    ensures
        json_tree(r) == frame_json(endpoint, Some(model@), false),
{
    frame(endpoint, Some(model), false)
}

/// The last frame, in the shape that the endpoint expects.
pub fn final_chunk(endpoint: Endpoint, model: &str) -> (r: Value)
    ensures
        json_tree(r) == frame_json(endpoint, Some(model@), true),
{
    frame(endpoint, Some(model), true)
}

/// The frames of a canned stream: one per token, the last one, and the mark of
/// the end.
pub open spec fn canned_frames(output_tokens: u32) -> Seq<Seq<char>> {
    Seq::new(
        output_tokens as nat,
        |i: int| json::json_text(frame_json(Endpoint::Chat, None, false)),
    ).push(json::json_text(frame_json(Endpoint::Chat, None, true))).push("[DONE]"@)
}

/// The frames of a canned stream.
pub fn stream_chat(output_tokens: u32) -> (r: Vec<String>)
    ensures
        r@.map_values(|s: String| s@) == canned_frames(output_tokens),
{
    let mut out: Vec<String> = Vec::new();
    let mut i: u32 = 0;
    while i < output_tokens
        invariant
            i <= output_tokens,
            out@.map_values(|s: String| s@) == Seq::new(
                i as nat,
                |i: int| json::json_text(frame_json(Endpoint::Chat, None, false)),
            ),
        decreases output_tokens - i,
    {
        let ghost was = out@;
        out.push(json::render(&frame(Endpoint::Chat, None, false)));
        proof {
            let f = |s: String| s@;
            let g = |i: int| json::json_text(frame_json(Endpoint::Chat, None, false));
            assert(out@.map_values(f) =~= was.map_values(f).push(g(0)));
            assert(Seq::new((i + 1) as nat, g) =~= Seq::new(i as nat, g).push(g(0)));
        }
        i = i + 1;
    }
    let ghost body = out@;
    out.push(json::render(&frame(Endpoint::Chat, None, true)));
    out.push("[DONE]".to_owned());
    assert(out@.map_values(|s: String| s@) =~= canned_frames(output_tokens));
    out
}

/// A stream of an engine's events on its way to a client.
#[derive(Debug, Clone, Copy, PartialEq, Eq, Structural)]
pub enum SseState {
    Active,
    Closing,
    Ended,
}

/// What a stream sends.
pub enum SseFrame {
    /// A frame, and then more.
    Data(String),
    /// Nothing: the stream ends.
    End,
}

/// What is sent after one event, or after the end of events, and the state that follows.
pub open spec fn sends(
    state: SseState,
    event: Option<GenEvent>,
    endpoint: Endpoint,
    model: Seq<char>,
    frame: SseFrame,
    next: SseState,
) -> bool {
    match state {
        SseState::Active => match event {
            Some(GenEvent::Token { token_id, prompt_tokens, cached_tokens }) => {
                &&& frame matches SseFrame::Data(s) && s@ == json::json_text(
                    frame_json(endpoint, Some(model), false),
                )
                &&& next == SseState::Active
            },
            Some(
                GenEvent::Done { finish_reason, prompt_total, completion_tokens, cached_total },
            ) => {
                &&& frame matches SseFrame::Data(s) && s@ == json::json_text(
                    frame_json(endpoint, Some(model), true),
                )
                &&& next == SseState::Closing
            },
            None => frame is End && next == SseState::Ended,
        },
        SseState::Closing => {
            &&& frame matches SseFrame::Data(s) && s@ == "[DONE]"@
            &&& next == SseState::Ended
        },
        SseState::Ended => frame is End && next == SseState::Ended,
    }
}

/// Takes one event, or the end of events, while the stream is active; nothing
/// else counts once the engine is done.
pub fn sse_step(state: SseState, event: &Option<GenEvent>, endpoint: Endpoint, model: &str) -> (r: (
    SseFrame,
    SseState,
))
    ensures
        sends(state, *event, endpoint, model@, r.0, r.1),
{
    match state {
        SseState::Active => match event {
            Some(GenEvent::Token { token_id, prompt_tokens, cached_tokens }) => (
                SseFrame::Data(json::render(&token_chunk(endpoint, model))),
                SseState::Active,
            ),
            Some(
                GenEvent::Done { finish_reason, prompt_total, completion_tokens, cached_total },
            ) => (SseFrame::Data(json::render(&final_chunk(endpoint, model))), SseState::Closing),
            None => (SseFrame::End, SseState::Ended),
        },
        SseState::Closing => (SseFrame::Data("[DONE]".to_owned()), SseState::Ended),
        SseState::Ended => (SseFrame::End, SseState::Ended),
    }
}

/// The stream of a simulated generation on its way to a client.
pub enum SimSse {
    /// The request's prefill runs.
    Ttft(Admitted),
    /// The request decodes.
    Decode(Admitted),
    Done,
    End,
}

impl SimSse {
    /// The worker can take the next step.
    pub open spec fn ready(self, worker: SimWorker) -> bool {
        &&& worker.wf()
        &&& worker@.params.block_size > 0
        &&& match self {
            SimSse::Ttft(adm) => {
                &&& adm.guard@.wf()
                &&& worker.work() + adm.guard@.chain.len() <= u64::MAX
            },
            SimSse::Decode(adm) => {
                &&& adm.guard@.wf()
                &&& adm.guard.span() <= usize::MAX
                &&& worker.work() + adm.guard@.chain.len() + adm.guard.span() <= u64::MAX
            },
            _ => true,
        }
    }

    /// How often the next step may touch or pin a cache block.
    pub open spec fn cost(self) -> nat {
        match self {
            SimSse::Ttft(adm) => adm.guard@.chain.len(),
            SimSse::Decode(adm) => adm.guard@.chain.len() + adm.guard.span(),
            _ => 0,
        }
    }

    /// `next` and `frame` follow, and the worker is as in `post`.
    pub open spec fn goes_on(
        self,
        pre: SimView,
        post: SimView,
        next: SimSse,
        frame: SseFrame,
    ) -> bool {
        match self {
            SimSse::Ttft(adm) => {
                &&& post == pre.prefilled(adm.guard@)
                &&& next matches SimSse::Decode(a) && {
                    &&& a.guard@ == adm.guard@.after_prefill()
                    &&& a.guard@.wf()
                    &&& native_json(a, true) == native_json(adm, true)
                }
                &&& frame matches SseFrame::Data(s) && s@ == json::json_text(
                    native_json(adm, false),
                )
            },
            SimSse::Decode(adm) => {
                &&& post == pre.completed(adm.guard@)
                &&& next is Done
                &&& frame matches SseFrame::Data(s) && s@ == json::json_text(
                    native_json(adm, true),
                )
            },
            SimSse::Done => {
                &&& post == pre
                &&& next is End
                &&& frame matches SseFrame::Data(s) && s@ == "[DONE]"@
            },
            SimSse::End => post == pre && next is End && frame is End,
        }
    }

    /// Takes the next step: after the wait for prefill, after the wait for
    /// decoding.
    pub fn advance(self, worker: &mut SimWorker) -> (r: (SseFrame, SimSse))
        requires
            self.ready(*old(worker)),
        ensures
            final(worker).wf(),
            self.goes_on(old(worker)@, final(worker)@, r.1, r.0),
            final(worker).work() <= old(worker).work() + self.cost(),
    {
        match self {
            SimSse::Ttft(adm) => {
                let mut adm = adm;
                adm.finish_prefill(worker);
                let frame = json::render(&native_response(&adm, false));
                (SseFrame::Data(frame), SimSse::Decode(adm))
            },
            SimSse::Decode(adm) => {
                let frame = json::render(&native_response(&adm, true));
                adm.complete(worker);
                (SseFrame::Data(frame), SimSse::Done)
            },
            SimSse::Done => (SseFrame::Data("[DONE]".to_owned()), SimSse::End),
            SimSse::End => (SseFrame::End, SimSse::End),
        }
    }
}

/// The list of models.
pub open spec fn models_json(model: Seq<char>) -> JsonView {
    JsonView::Object(
        Map::empty().insert("object"@, JsonView::Text("list"@)).insert(
            "data"@,
            JsonView::Array(
                seq![
                    JsonView::Object(
                        Map::empty().insert("id"@, JsonView::Text(model)).insert(
                            "object"@,
                            JsonView::Text("model"@),
                        ).insert("created"@, number(0)).insert(
                            "owned_by"@,
                            JsonView::Text("sglang"@),
                        ).insert("root"@, JsonView::Text(model)).insert(
                            "max_model_len"@,
                            number(32768),
                        ),
                    ),
                ],
            ),
        ),
    )
}

/// The list of models: one.
pub fn models(model: &str) -> (r: Value)
    ensures
        json_tree(r) == models_json(model@),
{
    let mut entry = Fields::new();
    entry.text("id", model);
    entry.text("object", "model");
    entry.number("created", 0);
    entry.text("owned_by", "sglang");
    entry.text("root", model);
    entry.number("max_model_len", 32768);
    let mut f = Fields::new();
    f.text("object", "list");
    f.put("data", single(entry.done()));
    f.done()
}

/// The figures of a load that are no whole numbers, as documents.
pub struct Rates {
    pub token_usage: Value,
    pub gen_throughput: Value,
    pub cache_hit_rate: Value,
    pub utilization: Value,
}

/// A load.
pub open spec fn load_json(load: SimLoad, rates: Rates) -> JsonView {
    JsonView::Object(
        Map::empty().insert("dp_rank"@, number(0)).insert(
            "num_running_reqs"@,
            integer(load.num_running_reqs),
        ).insert("num_waiting_reqs"@, integer(load.num_waiting_reqs)).insert(
            "num_waiting_uncached_tokens"@,
            integer(load.num_waiting_uncached_tokens),
        ).insert(
            "num_total_reqs"@,
            integer((load.num_running_reqs + load.num_waiting_reqs) as i64),
        ).insert("num_used_tokens"@, integer(load.num_used_tokens)).insert(
            "max_total_num_tokens"@,
            integer(load.max_total_num_tokens),
        ).insert("token_usage"@, json_tree(rates.token_usage)).insert(
            "gen_throughput"@,
            json_tree(rates.gen_throughput),
        ).insert("cache_hit_rate"@, json_tree(rates.cache_hit_rate)).insert(
            "utilization"@,
            json_tree(rates.utilization),
        ).insert("max_running_requests"@, integer(load.max_running_requests)),
    )
}

/// What a worker says of its load.
pub open spec fn loads_json(load: SimLoad, rates: Rates) -> JsonView {
    JsonView::Object(
        Map::empty().insert("timestamp"@, JsonView::Text(""@)).insert(
            "dp_rank_count"@,
            number(1),
        ).insert("loads"@, JsonView::Array(seq![load_json(load, rates)])),
    )
}

/// What a worker says of its load.
pub fn loads(load: &SimLoad, rates: Rates) -> (r: Value)
    requires
        i64::MIN <= load.num_running_reqs + load.num_waiting_reqs <= i64::MAX,
    ensures
        json_tree(r) == loads_json(*load, rates),
{
    let mut f = Fields::new();
    f.number("dp_rank", 0);
    f.integer("num_running_reqs", load.num_running_reqs);
    f.integer("num_waiting_reqs", load.num_waiting_reqs);
    f.integer("num_waiting_uncached_tokens", load.num_waiting_uncached_tokens);
    f.integer("num_total_reqs", load.num_running_reqs + load.num_waiting_reqs);
    f.integer("num_used_tokens", load.num_used_tokens);
    f.integer("max_total_num_tokens", load.max_total_num_tokens);
    f.put("token_usage", rates.token_usage);
    f.put("gen_throughput", rates.gen_throughput);
    f.put("cache_hit_rate", rates.cache_hit_rate);
    f.put("utilization", rates.utilization);
    f.integer("max_running_requests", load.max_running_requests);
    let mut whole = Fields::new();
    whole.text("timestamp", "");
    whole.number("dp_rank_count", 1);
    whole.put("loads", single(f.done()));
    whole.done()
}

/// The load of a worker that neither simulates nor runs an engine.
pub fn no_load() -> (r: SimLoad)
    ensures
        r == (SimLoad {
            num_running_reqs: 0,
            num_waiting_reqs: 0,
            num_waiting_uncached_tokens: 0,
            num_used_tokens: 0,
            max_total_num_tokens: 1_000_000,
            max_running_requests: 0,
        }),
{
    SimLoad {
        num_running_reqs: 0,
        num_waiting_reqs: 0,
        num_waiting_uncached_tokens: 0,
        num_used_tokens: 0,
        max_total_num_tokens: 1_000_000,
        max_running_requests: 0,
    }
}

/// The name of the `n`-th request.
pub fn request_name(n: u64) -> (r: String)
    ensures
        r@ == "mock-http-"@ + text::decimal(n as nat),
{
    text::numbered("mock-http-", n)
}

} // verus!
