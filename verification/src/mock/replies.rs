//! What a mock worker reads out of requests, and what its answers hold.

use super::grpc::block_matches;
use super::grpc::event_matches;
use super::grpc::engine_load_of;
use super::grpc::folds;
use super::grpc::idle_load_of;
use super::grpc::is_canned;
use super::grpc::is_mock_model;
use super::grpc::is_planned;
use super::grpc::signed_hash;
use super::grpc::sim_load_of;
use super::grpc::GenEvent;
use super::grpc::GenerateFold;
use super::grpc::LoadSnapshot;
use super::grpc::MockScheduler;
use super::grpc::Mode;
use super::grpc::ModelInfo;
use super::grpc::Plan;
use super::grpc::SimAction;
use super::grpc::SimGen;
use super::grpc::SimKvEvent;
use super::http::answer_json;
use super::http::body_matches;
use super::http::canned_frames;
use super::http::chat_matches;
use super::http::contents_of;
use super::http::counts_on;
use super::http::document_or_null;
use super::http::frame_json;
use super::http::images_of;
use super::http::load_json;
use super::http::loads_json;
use super::http::models_json;
use super::http::native_json;
use super::http::naturals_of;
use super::http::prompt_of;
use super::http::sends;
use super::http::texts_of;
use super::http::usage_json;
use super::http::word_hash;
use super::http::word_token;
use super::http::word_tokens;
use super::http::ChatBody;
use super::http::CompletionFold;
use super::http::Endpoint;
use super::http::GenerateBody;
use super::http::Rates;
use super::http::SimSse;
use super::http::SseFrame;
use super::http::SseState;
use super::sim::Admitted;
use super::sim::SimLoad;
use super::sim::SimView;
use crate::inference::tokenspeed::GenerateEvent;
use crate::inference::tokenspeed::GenerateRequest;
use crate::inference::tokenspeed::GenerateResponse;
use crate::json::json_document;
use crate::json::json_text;
use crate::json::json_tree;
use crate::json::JsonView;
use crate::json::NumberView;
use crate::proto::KvCacheEvent;
use crate::proto::KvData;
use crate::text::joined;
use crate::text::words_of;
use vstd::prelude::*;
use vstd::utf8::encode_utf8;

verus! {

/// The document is an object, and this is its field.
pub open spec fn has(tree: JsonView, key: Seq<char>, value: JsonView) -> bool {
    tree matches JsonView::Object(m) && m.contains_key(key) && m[key] == value
}

/// The document has no such field.
pub open spec fn lacks(tree: JsonView, key: Seq<char>) -> bool {
    tree matches JsonView::Object(m) ==> !m.contains_key(key)
}

/// No natural number is in the field: it is not there, or it is something else.
pub open spec fn no_number(tree: JsonView, key: Seq<char>) -> bool {
    tree matches JsonView::Object(m) ==> (m.contains_key(key) ==> !(m[key] matches JsonView::Number(
        NumberView::Natural(_),
    )))
}

/// No text is in the field.
pub open spec fn no_text(tree: JsonView, key: Seq<char>) -> bool {
    tree matches JsonView::Object(m) ==> (m.contains_key(key) ==> !(m[key] is Text))
}

/// No list is in the field.
pub open spec fn no_list(tree: JsonView, key: Seq<char>) -> bool {
    tree matches JsonView::Object(m) ==> (m.contains_key(key) ==> !(m[key] is Array))
}

/// A whole number as a document.
pub open spec fn whole(n: u64) -> JsonView {
    JsonView::Number(NumberView::Natural(n))
}

/// A list of ids as a document.
pub open spec fn listing(ids: Seq<u32>) -> Seq<JsonView> {
    Seq::new(ids.len(), |i: int| whole(ids[i] as u64))
}

// ── Reading ─────────────────────────────────────────────────────────────────

/// Ids are read as they are listed, and what is no id is passed over.
pub proof fn listed_ids_are_read(ids: Seq<u32>, other: JsonView, more: Seq<u32>)
    requires
        !(other is Number),
    ensures
        naturals_of(listing(ids)) == ids,
        naturals_of(listing(ids).push(other)) == ids,
        naturals_of(listing(ids).push(other) + listing(more)) == ids + more,
    decreases more.len(),
{
    ids_are_read(ids);
    let front = listing(ids).push(other);
    assert(front.drop_last() =~= listing(ids));
    if more.len() == 0 {
        assert(front + listing(more) =~= front);
        assert(ids + more =~= ids);
    } else {
        let init = more.drop_last();
        listed_ids_are_read(ids, other, init);
        let all = front + listing(more);
        assert(all.drop_last() =~= front + listing(init));
        assert(all.last() == whole(more.last() as u64));
        assert(naturals_of(all) =~= ids + more);
    }
}

proof fn ids_are_read(ids: Seq<u32>)
    ensures
        naturals_of(listing(ids)) == ids,
    decreases ids.len(),
{
    if ids.len() > 0 {
        let init = ids.drop_last();
        ids_are_read(init);
        assert(listing(ids).drop_last() =~= listing(init));
        assert(naturals_of(listing(ids)) =~= ids);
    } else {
        assert(naturals_of(listing(ids)) =~= ids);
    }
}

/// Ids stand in a list, or in the first of some lists; without either there are none to
/// read, and the prompt's words stand for them.
pub proof fn bodies_give_their_ids(
    tree: JsonView,
    default_tokens: u32,
    b: GenerateBody,
    ids: Seq<u32>,
    rest: Seq<JsonView>,
)
    requires
        body_matches(tree, default_tokens, b),
    ensures
        has(tree, "input_ids"@, JsonView::Array(listing(ids))) ==> b.input_ids@ == ids,
        has(tree, "input_ids"@, JsonView::Array(seq![JsonView::Array(listing(ids))] + rest))
            ==> b.input_ids@ == ids,
        no_list(tree, "input_ids"@) ==> b.input_ids@ == word_tokens(words_of(prompt_of(tree))),
{
    ids_are_read(ids);
    let lists = seq![JsonView::Array(listing(ids))] + rest;
    assert(lists[0] == JsonView::Array(listing(ids)));
    if ids.len() > 0 {
        assert(listing(ids)[0] == whole(ids[0] as u64));
    }
}

/// The lower 32 bits of a number.
pub open spec fn low_half(n: u64) -> u32 {
    (n % 0x1_0000_0000) as u32
}

proof fn low_halves(n: u64)
    ensures
        n as u32 == low_half(n),
        n <= u32::MAX ==> low_half(n) == n,
{
    assert(n as u32 == (n % 0x1_0000_0000) as u32) by (bit_vector);
}

/// An id that 32 bits do not hold is cut down to them, and has its place all the same.
pub proof fn wide_ids_are_cut_down(ids: Seq<u64>)
    ensures
        naturals_of(Seq::new(ids.len(), |i: int| whole(ids[i]))) == Seq::new(
            ids.len(),
            |i: int| low_half(ids[i]),
        ),
    decreases ids.len(),
{
    let all = Seq::new(ids.len(), |i: int| whole(ids[i]));
    let cut = Seq::new(ids.len(), |i: int| low_half(ids[i]));
    if ids.len() > 0 {
        let init = ids.drop_last();
        wide_ids_are_cut_down(init);
        low_halves(ids.last());
        assert(all.drop_last() =~= Seq::new(init.len(), |i: int| whole(init[i])));
        assert(naturals_of(all) =~= cut);
    } else {
        assert(naturals_of(all) =~= cut);
    }
}

/// A request is streamed only where it says so, and is as long as it says, as far as 32
/// bits hold it: what stands with the sampling parameters counts first, then the one name,
/// then the other.
pub proof fn bodies_give_their_length(
    tree: JsonView,
    default_tokens: u32,
    b: GenerateBody,
    params: JsonView,
    n: u64,
)
    requires
        body_matches(tree, default_tokens, b),
    ensures
        has(tree, "stream"@, JsonView::Bool(true)) <==> b.stream,
        has(tree, "sampling_params"@, params) && has(params, "max_new_tokens"@, whole(n))
            ==> b.max_new == low_half(n),
        (lacks(tree, "sampling_params"@) || has(tree, "sampling_params"@, params) && no_number(
            params,
            "max_new_tokens"@,
        )) && has(tree, "max_new_tokens"@, whole(n)) ==> b.max_new == low_half(n),
        (lacks(tree, "sampling_params"@) || has(tree, "sampling_params"@, params) && no_number(
            params,
            "max_new_tokens"@,
        )) && no_number(tree, "max_new_tokens"@) && has(tree, "max_tokens"@, whole(n))
            ==> b.max_new == low_half(n),
        (lacks(tree, "sampling_params"@) || has(tree, "sampling_params"@, params) && no_number(
            params,
            "max_new_tokens"@,
        )) && no_number(tree, "max_new_tokens"@) && no_number(
            tree,
            "max_tokens"@,
        ) ==> b.max_new == default_tokens,
{
    low_halves(n);
}

/// A chat is streamed only where it says so, and is as long as it says, as far as 32 bits
/// hold it, whichever of the two names it uses; its words stand for its ids.
pub proof fn chats_give_their_length(
    tree: JsonView,
    default_tokens: u32,
    b: ChatBody,
    n: u64,
)
    requires
        chat_matches(tree, default_tokens, b),
    ensures
        has(tree, "stream"@, JsonView::Bool(true)) <==> b.stream,
        has(tree, "max_tokens"@, whole(n)) ==> b.max_new == low_half(n),
        no_number(tree, "max_tokens"@) && has(tree, "max_new_tokens"@, whole(n)) ==> b.max_new
            == low_half(n),
        no_number(tree, "max_tokens"@) && no_number(tree, "max_new_tokens"@) ==> b.max_new
            == default_tokens,
        b.input_ids@ == word_tokens(words_of(prompt_of(tree))),
{
    low_halves(n);
}

/// A body that is no document asks for nothing: no stream, no ids, the length that the
/// worker has by default.
pub proof fn broken_bodies_ask_for_nothing(
    bytes: Seq<u8>,
    default_tokens: u32,
    b: GenerateBody,
    c: ChatBody,
)
    requires
        json_document(bytes) is None,
        body_matches(document_or_null(bytes), default_tokens, b),
        chat_matches(document_or_null(bytes), default_tokens, c),
    ensures
        !b.stream && b.input_ids@.len() == 0 && b.max_new == default_tokens && b.images@.len()
            == 0,
        !c.stream && c.input_ids@.len() == 0 && c.max_new == default_tokens,
{
    reveal_strlit("");
    assert(""@ =~= Seq::<char>::empty());
    assert(words_of(""@).len() == 0);
    assert(b.images@.map_values(|s: String| s@).len() == b.images@.len());
}

/// Images are one text, or the texts of a list in their order.
pub proof fn listed_images_are_read(tree: JsonView, image: Seq<char>, images: Seq<Seq<char>>)
    ensures
        has(tree, "image_data"@, JsonView::Text(image)) ==> images_of(tree) == seq![image],
        has(
            tree,
            "image_data"@,
            JsonView::Array(Seq::new(images.len(), |i: int| JsonView::Text(images[i]))),
        ) ==> images_of(tree) == images,
        no_text(tree, "image_data"@) && no_list(tree, "image_data"@) ==> images_of(tree).len() == 0,
{
    texts_are_read(images);
}

/// What is no text in a list of images is passed over.
pub proof fn other_items_are_passed_over(items: Seq<JsonView>, item: JsonView)
    ensures
        !(item is Text) ==> texts_of(items.push(item)) == texts_of(items),
        item matches JsonView::Text(s) ==> texts_of(items.push(item)) == texts_of(items).push(s),
        !(item is Number) ==> naturals_of(items.push(item)) == naturals_of(items),
        item matches JsonView::Number(n) ==> (!(n is Natural) ==> naturals_of(items.push(item))
            == naturals_of(items)),
{
    assert(items.push(item).drop_last() =~= items);
}

proof fn texts_are_read(parts: Seq<Seq<char>>)
    ensures
        texts_of(Seq::new(parts.len(), |i: int| JsonView::Text(parts[i]))) == parts,
    decreases parts.len(),
{
    let all = Seq::new(parts.len(), |i: int| JsonView::Text(parts[i]));
    if parts.len() > 0 {
        let init = parts.drop_last();
        texts_are_read(init);
        assert(all.drop_last() =~= Seq::new(init.len(), |i: int| JsonView::Text(init[i])));
        assert(texts_of(all) =~= parts);
    } else {
        assert(texts_of(all) =~= parts);
    }
}

/// The words of a chat are those of its messages, one message after the other: one more
/// message adds its own words at the end, one without a text adds none.
pub proof fn messages_add_their_words(
    tree: JsonView,
    longer: JsonView,
    messages: Seq<JsonView>,
    message: JsonView,
    content: Seq<char>,
)
    requires
        has(tree, "messages"@, JsonView::Array(messages)),
        has(longer, "messages"@, JsonView::Array(messages.push(message))),
    ensures
        has(message, "content"@, JsonView::Text(content)) ==> word_tokens(
            words_of(prompt_of(longer)),
        ) == word_tokens(words_of(prompt_of(tree))) + word_tokens(words_of(content)),
        no_text(message, "content"@) ==> prompt_of(longer) == prompt_of(tree),
        messages.len() == 0 ==> words_of(prompt_of(tree)).len() == 0,
{
    let all = messages.push(message);
    assert(all.drop_last() =~= messages);
    let parts = contents_of(messages);
    if has(message, "content"@, JsonView::Text(content)) {
        let more = parts.push(content);
        assert(contents_of(all) == more);
        assert(more.drop_last() =~= parts);
        if parts.len() == 0 {
            assert(joined(more, " "@) == content);
            let none = Seq::<char>::empty();
            assert(joined(parts, " "@) =~= none);
            assert(words_of(none) =~= Seq::empty());
            assert(word_tokens(words_of(none)) + word_tokens(words_of(content)) =~= word_tokens(
                words_of(content),
            ));
        } else {
            super::http::shared_words_share_tokens(joined(parts, " "@), content);
        }
    }
    if messages.len() == 0 {
        assert(joined(parts, " "@) =~= Seq::<char>::empty());
    }
}

/// Without messages the prompt stands under one of three names, the first that is there.
pub proof fn prompts_have_three_names(tree: JsonView, s: Seq<char>)
    requires
        no_list(tree, "messages"@),
    ensures
        has(tree, "prompt"@, JsonView::Text(s)) ==> prompt_of(tree) == s,
        no_text(tree, "prompt"@) && has(tree, "text"@, JsonView::Text(s)) ==> prompt_of(tree) == s,
        no_text(tree, "prompt"@) && no_text(tree, "text"@) && has(tree, "inputs"@, JsonView::Text(s))
            ==> prompt_of(tree) == s,
        no_text(tree, "prompt"@) && no_text(tree, "text"@) && no_text(tree, "inputs"@) ==> prompt_of(
            tree,
        ).len() == 0,
{
    reveal_strlit("");
}

/// One token stands for one word, the same for the same word, and below 30,000.
pub proof fn words_have_their_tokens(words: Seq<Seq<char>>, i: int, j: int)
    requires
        0 <= i < words.len(),
        0 <= j < words.len(),
    ensures
        word_tokens(words).len() == words.len(),
        word_tokens(words)[i] < 30_000,
        words[i] == words[j] ==> word_tokens(words)[i] == word_tokens(words)[j],
        word_tokens(words)[i] == word_hash(encode_utf8(words[i])) % 30_000,
        word_token(encode_utf8(words[i])) == word_tokens(words)[i],
{
}

/// A word's hash takes one byte after the other: what differs in the last byte alone has
/// another hash.
pub proof fn last_bytes_count(bytes: Seq<u8>, a: u8, b: u8)
    requires
        a != b,
    ensures
        word_hash(Seq::empty()) == 0x811c_9dc5,
        word_hash(bytes.push(a)) as int == ((word_hash(bytes) ^ (a as u32)) * 0x0100_0193)
            % 0x1_0000_0000,
        word_hash(bytes.push(a)) != word_hash(bytes.push(b)),
{
    let h = word_hash(bytes);
    let (x, y) = (h ^ (a as u32), h ^ (b as u32));
    assert(bytes.push(a).drop_last() =~= bytes);
    assert(bytes.push(b).drop_last() =~= bytes);
    assert(x != y) by (bit_vector)
        requires
            x == h ^ (a as u32),
            y == h ^ (b as u32),
            a != b,
    ;
    product_is_apart(x, y);
}

/// The prime is odd, so no two numbers have one product.
proof fn product_is_apart(x: u32, y: u32)
    requires
        x != y,
    ensures
        (x * 16_777_619) % 0x1_0000_0000 != (y * 16_777_619) % 0x1_0000_0000,
{
    assert((x as int * 16_777_619) % 0x1_0000_0000 != (y as int * 16_777_619) % 0x1_0000_0000)
        by (nonlinear_arith)
        requires
            x != y,
    ;
}

// ── Answering ───────────────────────────────────────────────────────────────

/// An answer of `/generate` counts the prompt, what of it was cached and what was made,
/// and holds all that was made; before the end nothing is made.
pub proof fn answers_count_tokens(adm: Admitted)
    requires
        adm.output_ids@.len() <= u64::MAX,
    ensures
        ({
            let done = native_json(adm, true);
            let begun = native_json(adm, false);
            let of_done = done->Object_0["meta_info"@];
            let of_begun = begun->Object_0["meta_info"@];
            let n = adm.output_ids@.len() as u64;
            &&& has(done, "meta_info"@, of_done) && has(begun, "meta_info"@, of_begun)
            &&& has(done, "output_ids"@, JsonView::Array(listing(adm.output_ids@)))
            &&& has(begun, "output_ids"@, JsonView::Array(Seq::empty()))
            &&& has(done, "text"@, JsonView::Text("mock"@))
            &&& has(begun, "text"@, JsonView::Text(""@))
            &&& has(of_done, "completion_tokens"@, whole(n))
            &&& has(of_begun, "completion_tokens"@, whole(0))
            &&& has(of_begun, "finish_reason"@, JsonView::Null)
            &&& has(of_done->Object_0["finish_reason"@], "length"@, whole(n))
            &&& has(of_done->Object_0["finish_reason"@], "type"@, JsonView::Text("length"@))
        }),
        forall|finished: bool|
            ({
                let of = (#[trigger] native_json(adm, finished))->Object_0["meta_info"@];
                &&& has(of, "id"@, JsonView::Text(adm.request_id@))
                &&& has(of, "prompt_tokens"@, whole(adm.prompt_tokens as u64))
                &&& has(of, "cached_tokens"@, whole(adm.cached_tokens as u64))
                &&& has(of, "worker_port"@, whole(adm.worker_port as u64))
            }),
{
    names_of_counts_differ();
    let done = native_json(adm, true);
    assert(done->Object_0["output_ids"@]->Array_0 =~= listing(adm.output_ids@));
    assert(native_json(adm, false)->Object_0["output_ids"@]->Array_0 =~= Seq::empty());
}

proof fn names_of_counts_differ()
    ensures
        "text"@ != "output_ids"@ && "text"@ != "meta_info"@ && "output_ids"@ != "meta_info"@,
        "id"@ != "prompt_tokens"@ && "id"@ != "completion_tokens"@ && "id"@ != "cached_tokens"@,
        "id"@ != "finish_reason"@ && "id"@ != "worker_port"@,
        "prompt_tokens"@ != "completion_tokens"@ && "prompt_tokens"@ != "cached_tokens"@,
        "prompt_tokens"@ != "finish_reason"@ && "prompt_tokens"@ != "worker_port"@,
        "completion_tokens"@ != "cached_tokens"@ && "completion_tokens"@ != "finish_reason"@,
        "completion_tokens"@ != "worker_port"@ && "cached_tokens"@ != "finish_reason"@,
        "cached_tokens"@ != "worker_port"@ && "finish_reason"@ != "worker_port"@,
        "type"@ != "length"@ && "total_tokens"@ != "prompt_tokens"@,
        "total_tokens"@ != "completion_tokens"@ && "total_tokens"@ != "cached_tokens"@,
{
    reveal_strlit("text");
    reveal_strlit("output_ids");
    reveal_strlit("meta_info");
    reveal_strlit("id");
    reveal_strlit("prompt_tokens");
    reveal_strlit("completion_tokens");
    reveal_strlit("cached_tokens");
    reveal_strlit("total_tokens");
    reveal_strlit("finish_reason");
    reveal_strlit("worker_port");
    reveal_strlit("type");
    reveal_strlit("length");
    assert("text"@.len() == 4);
    assert("output_ids"@.len() == 10);
    assert("meta_info"@.len() == 9);
    assert("id"@.len() == 2);
    assert("prompt_tokens"@.len() == 13);
    assert("completion_tokens"@.len() == 17);
    assert("cached_tokens"@.len() == 13);
    assert("total_tokens"@.len() == 12);
    assert("finish_reason"@.len() == 13);
    assert("worker_port"@.len() == 11);
    assert("type"@.len() == 4);
    assert("length"@.len() == 6);
    assert("prompt_tokens"@[0] == 'p' && "cached_tokens"@[0] == 'c' && "finish_reason"@[0] == 'f');
    assert("total_tokens"@[0] == 't');
}

/// The total of an answer is the prompt and the completion.
pub proof fn totals_add_up(prompt: u32, completion: u32, cached: u32)
    ensures
        ({
            let u = usage_json(prompt, completion, cached);
            &&& has(u, "prompt_tokens"@, whole(prompt as u64))
            &&& has(u, "completion_tokens"@, whole(completion as u64))
            &&& has(u, "cached_tokens"@, whole(cached as u64))
            &&& has(u, "total_tokens"@, whole((prompt + completion) as u64))
        }),
{
    names_of_counts_differ();
}

/// The one choice of an answer or a frame.
pub open spec fn choice_of(tree: JsonView) -> JsonView {
    tree->Object_0["choices"@]->Array_0[0]
}

/// A chat is answered with a message, a completion with a text; both name the model, have
/// the counts, and are over.
pub proof fn answers_have_their_shape(model: Seq<char>, usage: JsonView)
    ensures
        ({
            let chat = answer_json(Endpoint::Chat, model, usage);
            let plain = answer_json(Endpoint::Completions, model, usage);
            &&& has(chat, "object"@, JsonView::Text("chat.completion"@))
            &&& has(plain, "object"@, JsonView::Text("text_completion"@))
            &&& has(chat, "id"@, JsonView::Text("chatcmpl-mock"@)) && has(chat, "created"@, whole(0))
            &&& has(plain, "id"@, JsonView::Text("cmpl-mock"@)) && has(plain, "created"@, whole(0))
            &&& has(choice_of(chat), "index"@, whole(0)) && has(choice_of(plain), "index"@, whole(0))
            &&& has(chat, "model"@, JsonView::Text(model)) && has(chat, "usage"@, usage)
            &&& has(plain, "model"@, JsonView::Text(model)) && has(plain, "usage"@, usage)
            &&& has(chat, "choices"@, JsonView::Array(seq![choice_of(chat)]))
            &&& has(plain, "choices"@, JsonView::Array(seq![choice_of(plain)]))
            &&& has(
                choice_of(chat)->Object_0["message"@],
                "role"@,
                JsonView::Text("assistant"@),
            )
            &&& has(choice_of(chat)->Object_0["message"@], "content"@, JsonView::Text("mock"@))
            &&& lacks(choice_of(chat), "text"@)
            &&& has(choice_of(plain), "text"@, JsonView::Text("mock"@))
            &&& lacks(choice_of(plain), "message"@)
            &&& has(choice_of(chat), "finish_reason"@, JsonView::Text("stop"@))
            &&& has(choice_of(plain), "finish_reason"@, JsonView::Text("stop"@))
        }),
{
    names_of_answers_differ();
}

proof fn names_of_answers_differ()
    ensures
        "id"@ != "object"@ && "id"@ != "created"@ && "id"@ != "model"@ && "id"@ != "choices"@,
        "id"@ != "usage"@ && "object"@ != "created"@ && "object"@ != "model"@,
        "object"@ != "choices"@ && "object"@ != "usage"@ && "created"@ != "model"@,
        "created"@ != "choices"@ && "created"@ != "usage"@ && "model"@ != "choices"@,
        "model"@ != "usage"@ && "choices"@ != "usage"@,
        "index"@ != "message"@ && "index"@ != "text"@ && "index"@ != "finish_reason"@,
        "message"@ != "finish_reason"@ && "text"@ != "finish_reason"@ && "message"@ != "text"@,
        "index"@ != "delta"@ && "delta"@ != "finish_reason"@ && "delta"@ != "text"@,
        "role"@ != "content"@ && "x"@ != ""@,
{
    reveal_strlit("id");
    reveal_strlit("object");
    reveal_strlit("created");
    reveal_strlit("model");
    reveal_strlit("choices");
    reveal_strlit("usage");
    reveal_strlit("index");
    reveal_strlit("message");
    reveal_strlit("text");
    reveal_strlit("finish_reason");
    reveal_strlit("delta");
    reveal_strlit("role");
    reveal_strlit("content");
    reveal_strlit("x");
    reveal_strlit("");
    assert("id"@.len() == 2);
    assert("object"@.len() == 6);
    assert("created"@.len() == 7);
    assert("model"@.len() == 5);
    assert("choices"@.len() == 7);
    assert("usage"@.len() == 5);
    assert("index"@.len() == 5);
    assert("message"@.len() == 7);
    assert("text"@.len() == 4);
    assert("finish_reason"@.len() == 13);
    assert("delta"@.len() == 5);
    assert("role"@.len() == 4);
    assert("content"@.len() == 7);
    assert("x"@.len() == 1);
    assert(""@.len() == 0);
    assert("created"@[1] == 'r' && "choices"@[1] == 'h' && "message"@[1] == 'e');
    assert("model"@[0] == 'm' && "usage"@[0] == 'u' && "index"@[0] == 'i' && "delta"@[0] == 'd');
}

/// A frame with a token has a text and goes on; the last one has none and stops. Only a
/// frame that is made for a model names one.
pub proof fn frames_have_their_shape(endpoint: Endpoint, model: Option<Seq<char>>)
    ensures
        ({
            let more = choice_of(frame_json(endpoint, model, false));
            let last = choice_of(frame_json(endpoint, model, true));
            &&& has(more, "index"@, whole(0)) && has(last, "index"@, whole(0))
            &&& has(more, "finish_reason"@, JsonView::Null)
            &&& has(last, "finish_reason"@, JsonView::Text("stop"@))
            &&& endpoint == Endpoint::Chat ==> {
                &&& has(more->Object_0["delta"@], "content"@, JsonView::Text("x"@))
                &&& last->Object_0["delta"@] is Object && lacks(
                    last->Object_0["delta"@],
                    "content"@,
                )
                &&& lacks(more, "text"@) && lacks(last, "text"@)
            }
            &&& endpoint == Endpoint::Completions ==> {
                &&& has(more, "text"@, JsonView::Text("x"@))
                &&& has(last, "text"@, JsonView::Text(""@))
                &&& lacks(more, "delta"@) && lacks(last, "delta"@)
            }
        }),
        forall|last: bool|
            ({
                let f = #[trigger] frame_json(endpoint, model, last);
                &&& model matches Some(m) ==> has(f, "model"@, JsonView::Text(m))
                &&& model is None ==> lacks(f, "model"@)
                &&& has(
                    f,
                    "id"@,
                    JsonView::Text(
                        if endpoint == Endpoint::Chat {
                            "chatcmpl-mock"@
                        } else {
                            "cmpl-mock"@
                        },
                    ),
                )
                &&& has(f, "choices"@, JsonView::Array(seq![choice_of(f)]))
                &&& has(
                    f,
                    "object"@,
                    JsonView::Text(
                        if endpoint == Endpoint::Chat {
                            "chat.completion.chunk"@
                        } else {
                            "text_completion"@
                        },
                    ),
                )
            }),
{
    names_of_answers_differ();
}

/// A canned stream has one frame per token, then the last frame, then the mark of the end.
pub proof fn canned_streams_end(output_tokens: u32, i: int)
    ensures
        canned_frames(output_tokens).len() == output_tokens + 2,
        0 <= i < output_tokens ==> canned_frames(output_tokens)[i] == json_text(
            frame_json(Endpoint::Chat, None, false),
        ),
        canned_frames(output_tokens)[output_tokens as int] == json_text(
            frame_json(Endpoint::Chat, None, true),
        ),
        canned_frames(output_tokens).last() == "[DONE]"@,
{
}

/// How far a simulated stream has come.
pub open spec fn stream_stage(s: SimSse) -> int {
    match s {
        SimSse::Ttft(_) => 0,
        SimSse::Decode(_) => 1,
        SimSse::Done => 2,
        SimSse::End => 3,
    }
}

/// A simulated stream sends three frames and ends: one before anything is made, the whole
/// answer, the mark of the end. Its request is over with the second.
pub proof fn simulated_streams_end(
    s: SimSse,
    pre: SimView,
    post: SimView,
    next: SimSse,
    frame: SseFrame,
)
    requires
        s.goes_on(pre, post, next, frame),
    ensures
        s is End ==> next is End && frame is End && post == pre,
        !(s is End) ==> stream_stage(next) == stream_stage(s) + 1 && frame is Data,
        s matches SimSse::Ttft(adm) ==> frame->Data_0@ == json_text(native_json(adm, false))
            && post == pre.prefilled(adm.guard@),
        s matches SimSse::Decode(adm) ==> frame->Data_0@ == json_text(native_json(adm, true))
            && post == pre.completed(adm.guard@),
        s is Done ==> frame->Data_0@ == "[DONE]"@ && post == pre,
{
}

/// The list of models has the one model, under its name.
pub proof fn the_model_is_listed(model: Seq<char>)
    ensures
        ({
            let data = models_json(model)->Object_0["data"@];
            &&& has(models_json(model), "data"@, data)
            &&& has(models_json(model), "object"@, JsonView::Text("list"@))
            &&& data->Array_0.len() == 1
            &&& has(data->Array_0[0], "id"@, JsonView::Text(model))
            &&& has(data->Array_0[0], "root"@, JsonView::Text(model))
            &&& has(data->Array_0[0], "max_model_len"@, whole(32_768))
            &&& has(data->Array_0[0], "object"@, JsonView::Text("model"@))
            &&& has(data->Array_0[0], "owned_by"@, JsonView::Text("sglang"@))
            &&& has(data->Array_0[0], "created"@, whole(0))
        }),
{
    reveal_strlit("data");
    reveal_strlit("object");
    reveal_strlit("id");
    reveal_strlit("created");
    reveal_strlit("owned_by");
    reveal_strlit("root");
    reveal_strlit("max_model_len");
    assert("data"@.len() == 4);
    assert("object"@.len() == 6);
    assert("id"@.len() == 2);
    assert("created"@.len() == 7);
    assert("owned_by"@.len() == 8);
    assert("root"@.len() == 4);
    assert("max_model_len"@.len() == 13);
}

/// A count that may be negative, as a document.
pub open spec fn counted(n: int) -> JsonView {
    JsonView::Number(
        if n < 0 {
            NumberView::Negative(n as i64)
        } else {
            NumberView::Natural(n as u64)
        },
    )
}

/// A load tells every counter, and the requests that there are in all.
pub proof fn loads_tell_every_counter(load: SimLoad, rates: Rates)
    requires
        i64::MIN <= load.num_running_reqs + load.num_waiting_reqs <= i64::MAX,
    ensures
        ({
            let all = loads_json(load, rates);
            let l = load_json(load, rates);
            &&& has(all, "loads"@, JsonView::Array(seq![l]))
            &&& has(all, "dp_rank_count"@, whole(1))
            &&& has(all, "timestamp"@, JsonView::Text(""@))
            &&& has(l, "dp_rank"@, whole(0))
            &&& has(l, "num_running_reqs"@, counted(load.num_running_reqs as int))
            &&& has(l, "num_waiting_reqs"@, counted(load.num_waiting_reqs as int))
            &&& has(
                l,
                "num_waiting_uncached_tokens"@,
                counted(load.num_waiting_uncached_tokens as int),
            )
            &&& has(
                l,
                "num_total_reqs"@,
                counted(load.num_running_reqs + load.num_waiting_reqs),
            )
            &&& has(l, "num_used_tokens"@, counted(load.num_used_tokens as int))
            &&& has(l, "max_total_num_tokens"@, counted(load.max_total_num_tokens as int))
            &&& has(l, "max_running_requests"@, counted(load.max_running_requests as int))
            &&& has(l, "token_usage"@, json_tree(rates.token_usage))
            &&& has(l, "gen_throughput"@, json_tree(rates.gen_throughput))
            &&& has(l, "cache_hit_rate"@, json_tree(rates.cache_hit_rate))
            &&& has(l, "utilization"@, json_tree(rates.utilization))
        }),
{
    reveal_strlit("timestamp");
    reveal_strlit("dp_rank_count");
    reveal_strlit("loads");
    reveal_strlit("dp_rank");
    reveal_strlit("num_running_reqs");
    reveal_strlit("num_waiting_reqs");
    reveal_strlit("num_waiting_uncached_tokens");
    reveal_strlit("num_total_reqs");
    reveal_strlit("num_used_tokens");
    reveal_strlit("max_total_num_tokens");
    reveal_strlit("token_usage");
    reveal_strlit("gen_throughput");
    reveal_strlit("cache_hit_rate");
    reveal_strlit("utilization");
    reveal_strlit("max_running_requests");
    assert("timestamp"@.len() == 9);
    assert("dp_rank_count"@.len() == 13);
    assert("loads"@.len() == 5);
    assert("dp_rank"@.len() == 7);
    assert("num_running_reqs"@.len() == 16);
    assert("num_waiting_reqs"@.len() == 16);
    assert("num_waiting_uncached_tokens"@.len() == 27);
    assert("num_total_reqs"@.len() == 14);
    assert("num_used_tokens"@.len() == 15);
    assert("max_total_num_tokens"@.len() == 20);
    assert("token_usage"@.len() == 11);
    assert("gen_throughput"@.len() == 14);
    assert("cache_hit_rate"@.len() == 14);
    assert("utilization"@.len() == 11);
    assert("max_running_requests"@.len() == 20);
    assert("num_running_reqs"@[4] == 'r' && "num_waiting_reqs"@[4] == 'w');
    assert("num_total_reqs"@[4] == 't' && "gen_throughput"@[0] == 'g');
    assert("cache_hit_rate"@[0] == 'c' && "max_total_num_tokens"@[4] == 't');
    assert("max_running_requests"@[4] == 'r' && "token_usage"@[0] == 't');
    assert("utilization"@[0] == 'u' && "num_used_tokens"@[0] == 'n');
}

// ── The scheduler service ───────────────────────────────────────────────────

/// A request is planned in the worker's mode, with its own tokens, under its own name, and
/// as long as it says, or as the worker has it by default.
pub proof fn requests_are_planned_as_asked(
    s: MockScheduler,
    request: GenerateRequest,
    plan: Plan,
    n: u32,
)
    requires
        is_planned(s, request, plan),
        n == if request.sampling_params is Some && request.sampling_params->0.max_new_tokens is Some {
            request.sampling_params->0.max_new_tokens->0
        } else {
            s.output_tokens
        },
    ensures
        plan is Sim <==> s.mode == Mode::Sim,
        plan is Realistic <==> s.mode == Mode::Realistic,
        plan is Canned <==> s.mode == Mode::Canned,
        plan matches Plan::Sim(g) ==> (g matches SimGen::Admit { request_id, input_ids, max_new }
            && request_id@ == request.request_id@ && max_new == n && (request.tokenized matches Some(
            t,
        ) ==> input_ids@ == t.input_ids@) && (request.tokenized is None ==> input_ids@.len() == 0)),
        plan matches Plan::Realistic { input_ids, max_new, fold } ==> max_new == n
            && fold.request_id@ == request.request_id@ && fold.stream_chunks == request.stream
            && fold.output_ids@.len() == 0 && (request.tokenized matches Some(t) ==> input_ids@
            == t.input_ids@) && (request.tokenized is None ==> input_ids@.len() == 0),
        plan matches Plan::Canned { delay_ms, responses } ==> delay_ms == s.gen_delay_ms
            && responses@.len() == s.output_tokens + 1,
{
}

/// A canned answer sends its tokens one by one, and all of them with the completion.
pub proof fn canned_answers_are_whole(
    request_id: Seq<char>,
    n: u32,
    answer: Seq<GenerateResponse>,
    i: int,
)
    requires
        n <= u32::MAX - 99,
        is_canned(request_id, n, answer),
    ensures
        answer.len() == n + 1,
        answer[n as int].request_id@ == request_id,
        answer[n as int].response matches Some(GenerateEvent::Complete(c)) && c.output_ids@.len()
            == n && c.completion_tokens == n && c.prompt_tokens == 1 && c.cached_tokens == 0
            && c.finish_reason@ == "stop"@ && c.matched_stop is None,
        0 <= i < n ==> answer[i].request_id@ == request_id && (answer[i].response matches Some(
            GenerateEvent::Chunk(c),
        ) && c.token_ids@.len() == 1 && c.token_ids@[0] == 100 + i && c.prompt_tokens == 1
            && c.completion_tokens == 1 && c.cached_tokens == 0),
        0 <= i < n ==> answer[n as int].response->0->Complete_0.output_ids@[i] == 100 + i,
{
}

/// How far a simulated generation has come.
pub open spec fn generation_stage(g: SimGen) -> int {
    match g {
        SimGen::Admit { .. } => 0,
        SimGen::Prefill { .. } => 1,
        SimGen::Decode { .. } => 2,
        SimGen::Done => 3,
    }
}

/// A simulated generation waits for what is not cached, sends its first token, decodes as
/// many as it asked for, and completes with all of its output, under one name.
pub proof fn simulated_generations_complete(
    g: SimGen,
    pre: SimView,
    post: SimView,
    next: SimGen,
    action: SimAction,
)
    requires
        g.goes_on(pre, post, next, action),
    ensures
        g is Done ==> next is Done && action is End && post == pre,
        !(g is Done) ==> generation_stage(next) == generation_stage(g) + 1,
        g matches SimGen::Admit { request_id, input_ids, max_new } ==> {
            &&& action is AwaitPrefill
            &&& next->Prefill_request_id == request_id
            &&& next->Prefill_max_new == max_new
            &&& next->Prefill_adm.prompt_tokens == input_ids@.len()
            &&& action->uncached + next->Prefill_adm.cached_tokens == input_ids@.len()
            &&& next->Prefill_adm.guard@.prompt == input_ids@
        },
        g matches SimGen::Prefill { request_id, max_new, adm } ==> {
            &&& action is SendAndDecode
            &&& action->tokens == max_new
            &&& action->first.request_id@ == request_id@
            &&& action->first.response matches Some(GenerateEvent::Chunk(c)) && c.token_ids@.len()
                <= 1 && (adm.output_ids@.len() > 0 ==> c.token_ids@ == seq![adm.output_ids@[0]])
                && (adm.prompt_tokens <= u32::MAX ==> c.prompt_tokens == adm.prompt_tokens) && (
            adm.cached_tokens <= u32::MAX ==> c.cached_tokens == adm.cached_tokens)
            &&& next->Decode_request_id == request_id
            &&& next->Decode_max_new == max_new
            &&& next->Decode_adm.output_ids == adm.output_ids
            &&& next->Decode_adm.prompt_tokens == adm.prompt_tokens
            &&& next->Decode_adm.cached_tokens == adm.cached_tokens
        },
        g matches SimGen::Decode { request_id, max_new, adm } ==> {
            &&& action is SendLast
            &&& action->SendLast_0.request_id@ == request_id@
            &&& action->SendLast_0.response matches Some(GenerateEvent::Complete(c))
                && c.output_ids@ == adm.output_ids@ && c.completion_tokens == max_new
                && c.finish_reason@ == "stop"@ && (adm.prompt_tokens <= u32::MAX
                ==> c.prompt_tokens == adm.prompt_tokens) && (adm.cached_tokens <= u32::MAX
                ==> c.cached_tokens == adm.cached_tokens)
        },
{
}

/// The number has the bits of the hash: it is the hash, or 2^64 less where the hash is too
/// large for it.
pub open spec fn same_hash(h: u64, sent: i64) -> bool {
    h == sent || h == sent + 0x1_0000_0000_0000_0000
}

/// A change of the cache reaches the wire whole: its blocks in their order, each under its
/// hash, with its tokens, behind its parent.
pub proof fn cache_changes_reach_the_wire(
    e: SimKvEvent,
    seq: u64,
    block_size: i32,
    w: KvCacheEvent,
    i: int,
)
    requires
        event_matches(e, seq, block_size, w),
    ensures
        w.event_id == seq,
        e matches SimKvEvent::Stored { parent, blocks } ==> {
            &&& w.data matches Some(KvData::Stored { parent_block_hash, blocks: sent })
            &&& parent is Some <==> parent_block_hash is Some
            &&& parent is Some ==> same_hash(parent->0, parent_block_hash->0)
            &&& sent@.len() == blocks@.len()
            &&& 0 <= i < blocks@.len() ==> same_hash(blocks@[i].hash, sent@[i].block_hash)
                && sent@[i].token_ids@ == blocks@[i].token_ids@ && sent@[i].block_size
                == block_size
        },
        e matches SimKvEvent::Removed { hashes } ==> {
            &&& w.data matches Some(KvData::Removed { block_hashes })
            &&& block_hashes@.len() == hashes@.len()
            &&& 0 <= i < hashes@.len() ==> same_hash(hashes@[i], block_hashes@[i])
        },
{
    match e {
        SimKvEvent::Stored { parent, blocks } => {
            if 0 <= i < blocks@.len() {
                let sent = w.data->0->Stored_blocks@;
                assert(block_matches(blocks@[i], block_size, sent[i]));
            }
        },
        SimKvEvent::Removed { hashes } => {
            let sent = w.data->0->block_hashes@;
            assert(sent.len() == hashes@.len());
            if 0 <= i < hashes@.len() {
                assert(sent[i] == signed_hash(hashes@[i]));
            }
        },
    }
}

/// A scheduler's load tells the counters of the worker or the engine, and the requests
/// that there are in all; a worker with neither is idle.
pub proof fn scheduler_loads_tell_the_counters(s: SimLoad, e: LoadSnapshot)
    requires
        i32::MIN <= s.num_running_reqs + s.num_waiting_reqs <= i32::MAX,
        i32::MIN <= e.num_running_reqs + e.num_waiting_reqs <= i32::MAX,
    ensures
        ({
            let l = sim_load_of(s);
            let fits = |n: i64| i32::MIN <= n <= i32::MAX;
            &&& l.num_total_reqs == s.num_running_reqs + s.num_waiting_reqs
            &&& fits(s.num_running_reqs) ==> l.num_running_reqs == s.num_running_reqs
            &&& fits(s.num_waiting_reqs) ==> l.num_waiting_reqs == s.num_waiting_reqs
            &&& fits(s.num_waiting_uncached_tokens) ==> l.num_waiting_uncached_tokens
                == s.num_waiting_uncached_tokens
            &&& fits(s.num_used_tokens) ==> l.num_used_tokens == s.num_used_tokens
            &&& fits(s.max_total_num_tokens) ==> l.max_total_num_tokens == s.max_total_num_tokens
            &&& fits(s.max_running_requests) ==> l.max_running_requests == s.max_running_requests
            &&& l.dp_rank == 0
        }),
        ({
            let l = engine_load_of(e);
            &&& l.num_total_reqs == e.num_running_reqs + e.num_waiting_reqs
            &&& l.num_running_reqs == e.num_running_reqs
            &&& l.num_waiting_reqs == e.num_waiting_reqs
            &&& l.num_waiting_uncached_tokens == e.num_waiting_uncached_tokens
            &&& l.num_used_tokens == e.num_used_tokens
            &&& l.max_total_num_tokens == e.max_total_num_tokens
            &&& l.max_running_requests == e.max_running_requests
            &&& l.dp_rank == 0
        }),
        ({
            let l = idle_load_of();
            &&& l.num_total_reqs == 0 && l.num_running_reqs == 0 && l.num_waiting_reqs == 0
            &&& l.num_waiting_uncached_tokens == 0 && l.num_used_tokens == 0
            &&& l.max_total_num_tokens == 1_000_000 && l.max_running_requests == 0
        }),
{
}

/// A mock model goes by the name and the tokenizer that it was given.
pub proof fn models_go_by_their_names(
    m: ModelInfo,
    model_id: Seq<char>,
    tokenizer_path: Seq<char>,
)
    requires
        is_mock_model(m, model_id, tokenizer_path),
    ensures
        m.model_path@ == model_id && m.served_model_name@ == model_id,
        m.tokenizer_path@ == tokenizer_path,
        m.max_req_input_len == m.max_context_length && m.max_context_length == 32_768,
        m.eos_token_ids@.len() == 1 && m.eos_token_ids@[0] != m.pad_token_id
            && m.eos_token_ids@[0] != m.bos_token_id && m.pad_token_id != m.bos_token_id,
        0 <= m.eos_token_ids@[0] < m.vocab_size && 0 <= m.bos_token_id < m.vocab_size,
        m.architectures@.len() == 1 && m.architectures@[0]@ == "MockForCausalLM"@,
        !m.supports_vision,
{
    let a = crate::text::views(m.architectures@);
    assert(a.len() == m.architectures@.len());
    assert(a[0] == m.architectures@[0]@);
}

/// The token of an event.
pub open spec fn token_of(event: GenEvent) -> u32 {
    event->token_id
}

/// A run of tokens through a stream: the states between them, and what went out.
pub open spec fn folds_run(
    states: Seq<GenerateFold>,
    events: Seq<GenEvent>,
    sent: Seq<Option<GenerateResponse>>,
) -> bool {
    &&& states.len() == events.len() + 1
    &&& sent.len() == events.len()
    &&& forall|i: int| 0 <= i < events.len() ==> (#[trigger] events[i]) is Token
    &&& forall|i: int|
        #![trigger events[i]]
        0 <= i < events.len() ==> folds(states[i], events[i], states[i + 1], sent[i])
}

proof fn tokens_gather(
    states: Seq<GenerateFold>,
    events: Seq<GenEvent>,
    sent: Seq<Option<GenerateResponse>>,
    n: int,
)
    requires
        folds_run(states, events, sent),
        0 <= n <= events.len(),
    ensures
        states[n].output_ids@ == states[0].output_ids@ + Seq::new(
            n as nat,
            |i: int| token_of(events[i]),
        ),
        states[n].request_id == states[0].request_id,
        states[n].stream_chunks == states[0].stream_chunks,
    decreases n,
{
    let so_far = Seq::new(n as nat, |i: int| token_of(events[i]));
    if n > 0 {
        tokens_gather(states, events, sent, n - 1);
        assert(folds(states[n - 1], events[n - 1], states[n - 1 + 1], sent[n - 1]));
        assert(so_far =~= Seq::new((n - 1) as nat, |i: int| token_of(events[i])).push(
            token_of(events[n - 1]),
        ));
        assert(states[n].output_ids@ =~= states[0].output_ids@ + so_far);
    } else {
        assert(states[0].output_ids@ =~= states[0].output_ids@ + so_far);
    }
}

/// A stream of tokens goes out one by one where that was asked for, numbered in their order,
/// and not at all otherwise; the completion has them all, with the engine's own counts.
pub proof fn streams_complete_with_all_tokens(
    states: Seq<GenerateFold>,
    events: Seq<GenEvent>,
    sent: Seq<Option<GenerateResponse>>,
    done: GenEvent,
    post: GenerateFold,
    last: Option<GenerateResponse>,
    i: int,
)
    requires
        folds_run(states, events, sent),
        states[0].output_ids@.len() == 0,
        done is Done,
        folds(states[events.len() as int], done, post, last),
        0 <= i < events.len() < 0x1_0000_0000,
    ensures
        sent[i] is Some <==> states[0].stream_chunks,
        sent[i] matches Some(r) ==> r.request_id@ == states[0].request_id@ && (
        r.response matches Some(GenerateEvent::Chunk(c)) && c.token_ids@ == seq![
            token_of(events[i]),
        ] && c.completion_tokens == i + 1 && c.prompt_tokens == events[i]->prompt_tokens
            && c.cached_tokens == events[i]->cached_tokens),
        last matches Some(r) && r.request_id@ == states[0].request_id@ && (
        r.response matches Some(GenerateEvent::Complete(c)) && c.output_ids@.len()
            == events.len() && c.output_ids@[i] == token_of(events[i]) && c.finish_reason@
            == done->finish_reason@ && c.prompt_tokens == done->prompt_total
            && c.completion_tokens == done->completion_tokens && c.cached_tokens
            == done->cached_total),
        post.output_ids@.len() == 0,
{
    tokens_gather(states, events, sent, i);
    tokens_gather(states, events, sent, i + 1);
    tokens_gather(states, events, sent, events.len() as int);
    assert(folds(states[i], events[i], states[i + 1], sent[i]));
}

/// Tokens are counted one by one, until the engine says how many there were.
pub proof fn engines_have_the_last_word(
    pre: CompletionFold,
    token: GenEvent,
    mid: CompletionFold,
    done: GenEvent,
    post: CompletionFold,
)
    requires
        token is Token,
        done is Done,
        counts_on(pre, token, mid),
        counts_on(mid, done, post),
    ensures
        mid.completion_tokens == pre.completion_tokens + 1,
        mid.cached_tokens == pre.cached_tokens,
        post.completion_tokens == done->completion_tokens,
        post.cached_tokens == done->cached_total,
{
}

/// A stream to a client has a frame per token, then the last frame, then the mark of the
/// end, and then nothing; one whose engine is gone just ends.
pub proof fn client_streams_end(
    state: SseState,
    event: Option<GenEvent>,
    endpoint: Endpoint,
    model: Seq<char>,
    frame: SseFrame,
    next: SseState,
)
    requires
        sends(state, event, endpoint, model, frame, next),
    ensures
        frame is Data <==> state == SseState::Closing || state == SseState::Active && event is Some,
        state == SseState::Active && event is Some && event->0 is Token ==> frame->Data_0@
            == json_text(frame_json(endpoint, Some(model), false)) && next == SseState::Active,
        state == SseState::Active && event is Some && event->0 is Done ==> frame->Data_0@
            == json_text(frame_json(endpoint, Some(model), true)) && next == SseState::Closing,
        state == SseState::Closing ==> frame->Data_0@ == "[DONE]"@ && next == SseState::Ended,
        frame is End ==> next == SseState::Ended,
        state == SseState::Ended ==> next == SseState::Ended,
{
}

} // verus!
