//! The turns of a session: what is asked, and what an answer says.
//!
//! A session has one turn, or a second one that extends the first turn's context
//! by what came back. Everything random is drawn before the first turn is sent.

use super::report::RequestRecord;
use crate::json;
use crate::json::field;
use crate::json::json_document;
use crate::json::json_tree;
use crate::json::natural_field;
use crate::json::JsonView;
use crate::mock::http::naturals;
use crate::mock::http::naturals_of;
use crate::text;
use crate::text::decimal;
use crate::text::joined;
use serde_json::Value;
use vstd::prelude::*;

verus! {

/// How many routing keys sessions share.
pub const SHARED_ROUTING_KEYS: usize = 32;

/// How many ids a routing hint carries at most.
pub const TOKENS_HINT_CAP: usize = 512;

/// Where a session's first turn goes.
#[derive(Debug, Clone, Copy, PartialEq, Eq, Structural)]
pub enum Ingress {
    /// To the gateway that the routing key's hash picks.
    Hash,
    Random,
}

/// Where a session's second turn goes.
#[derive(Debug, Clone, Copy, PartialEq, Eq, Structural)]
pub enum Turn2Ingress {
    /// Where the first one went.
    Same,
    Hash,
    Random,
}

/// What every session is told.
pub struct LoadArgs {
    pub smg_urls: Vec<String>,
    pub ingress: Ingress,
    pub turn2_ingress: Turn2Ingress,
    pub stream: bool,
    pub tokens_hint: bool,
    pub image_count: u32,
    pub image_placeholder_id: u32,
    pub image_placeholder_run: u32,
}

/// What was drawn for a session.
pub struct Draws {
    /// The hash of the routing key.
    pub key_hash: u64,
    pub prompt_len: usize,
    pub first_max_new: u32,
    /// A gateway at random, for the first turn.
    pub first_random: usize,
    pub has_second: bool,
    pub second_max_new: u32,
    /// A gateway at random, for the second turn.
    pub second_random: usize,
}

/// A session's routing key: a shared one, or its own.
pub open spec fn key_of(shared: Option<u64>, sid: u64) -> Seq<char> {
    match shared {
        Some(i) => "shared-"@ + decimal(i as nat),
        None => "sess-"@ + decimal(sid as nat),
    }
}

/// A session's routing key.
pub fn routing_key(shared: Option<u64>, sid: u64) -> (r: String)
    ensures
        r@ == key_of(shared, sid),
{
    match shared {
        Some(i) => text::numbered("shared-", i),
        None => text::numbered("sess-", sid),
    }
}

impl LoadArgs {
    /// How many ids stand for images.
    pub open spec fn placeholders(&self) -> int {
        self.image_placeholder_run * self.image_count
    }

    /// How many ids fill a prompt up behind its prefix and its images.
    pub open spec fn padding(&self, prefix: int, prompt_len: int) -> int {
        let used = prefix + self.placeholders();
        if used < prompt_len {
            prompt_len - used
        } else {
            0
        }
    }

    /// How many ids fill a prompt up behind its prefix and its images.
    pub fn pad_len(&self, prefix: usize, prompt_len: usize) -> (r: usize)
        requires
            prefix + self.placeholders() <= usize::MAX,
        ensures
            r == self.padding(prefix as int, prompt_len as int),
    {
        let used: usize = prefix + self.placeholder_total();
        if used < prompt_len {
            prompt_len - used
        } else {
            0
        }
    }

    fn placeholder_total(&self) -> (r: usize)
        requires
            self.placeholders() <= usize::MAX,
        ensures
            r == self.placeholders(),
    {
        let run: u64 = self.image_placeholder_run as u64;
        let count: u64 = self.image_count as u64;
        assert(run * count <= 0xffff_fffe_0000_0001) by (nonlinear_arith)
            requires
                run <= 0xffff_ffff,
                count <= 0xffff_ffff,
        ;
        (run * count) as usize
    }
}

/// A turn of a session.
pub struct Turn {
    pub sid: u64,
    pub turn: u8,
    pub key: String,
    /// Which gateway the turn goes to.
    pub smg: usize,
    pub input_ids: Vec<u32>,
    pub max_new: u32,
}

/// A session under way.
pub struct Session {
    pub first: Turn,
    pub has_second: bool,
    pub second_smg: usize,
    pub second_max_new: u32,
}

/// Which gateway a first turn goes to.
pub open spec fn first_target(ingress: Ingress, draws: Draws, n: int) -> int {
    match ingress {
        Ingress::Hash => draws.key_hash as int % n,
        Ingress::Random => draws.first_random as int,
    }
}

/// Which gateway a second turn goes to.
pub open spec fn second_target(args: LoadArgs, draws: Draws, n: int) -> int {
    match args.turn2_ingress {
        Turn2Ingress::Same => first_target(args.ingress, draws, n),
        Turn2Ingress::Hash => draws.key_hash as int % n,
        Turn2Ingress::Random => draws.second_random as int,
    }
}

/// A first turn's prompt: the prefix, the images' ids and what fills it up.
pub open spec fn first_prompt(args: LoadArgs, prefix: Seq<u32>, padding: Seq<u32>) -> Seq<u32> {
    prefix + Seq::new(args.placeholders() as nat, |i: int| args.image_placeholder_id) + padding
}

/// The session is the one that was drawn.
pub open spec fn planned(
    args: LoadArgs,
    sid: u64,
    key: Seq<char>,
    prefix: Seq<u32>,
    padding: Seq<u32>,
    draws: Draws,
    s: Session,
) -> bool {
    &&& s.first.sid == sid
    &&& s.first.turn == 1
    &&& s.first.key@ == key
    &&& s.first.smg == first_target(args.ingress, draws, args.smg_urls@.len() as int)
    &&& s.first.input_ids@ == first_prompt(args, prefix, padding)
    &&& s.first.max_new == draws.first_max_new
    &&& s.has_second == draws.has_second
    &&& s.second_smg == second_target(args, draws, args.smg_urls@.len() as int)
    &&& s.second_max_new == draws.second_max_new
}

/// The second turn of a session, after some output.
pub open spec fn follows(s: Session, output: Option<Vec<u32>>, suffix: Seq<u32>, r: Option<Turn>) -> bool {
    &&& r is Some <==> s.has_second && output is Some
    &&& r matches Some(t) ==> {
        &&& t.sid == s.first.sid
        &&& t.turn == 2
        &&& t.key == s.first.key
        &&& t.smg == s.second_smg
        &&& t.input_ids@ == s.first.input_ids@ + (output->0)@ + suffix
        &&& t.max_new == s.second_max_new
    }
}

impl Session {
    /// Plans a session.
    pub fn plan(
        args: &LoadArgs,
        sid: u64,
        key: String,
        prefix: Vec<u32>,
        padding: Vec<u32>,
        draws: &Draws,
    ) -> (r: Session)
        requires
            args.smg_urls@.len() > 0,
            prefix@.len() + args.placeholders() + padding@.len() <= usize::MAX,
            draws.first_random < args.smg_urls@.len(),
            draws.second_random < args.smg_urls@.len(),
        ensures
            planned(*args, sid, key@, prefix@, padding@, *draws, r),
            r.first.smg < args.smg_urls@.len(),
            r.second_smg < args.smg_urls@.len(),
    {
        let ghost head = prefix@;
        let mut input_ids = prefix;
        let total: usize = args.placeholder_total();
        let mut i: usize = 0;
        let id: u32 = args.image_placeholder_id;
        while i < total
            invariant
                i <= total,
                input_ids@ == head + Seq::new(i as nat, |j: int| id),
            decreases total - i,
        {
            input_ids.push(id);
            assert(head + Seq::new((i + 1) as nat, |j: int| id) =~= (head + Seq::new(
                i as nat,
                |j: int| id,
            )).push(id));
            i = i + 1;
        }
        let mut padding = padding;
        let ghost pad = padding@;
        input_ids.append(&mut padding);
        assert(input_ids@ =~= first_prompt(*args, head, pad));
        let n: u64 = args.smg_urls.len() as u64;
        let hashed: usize = (draws.key_hash % n) as usize;
        let smg: usize = match args.ingress {
            Ingress::Hash => hashed,
            Ingress::Random => draws.first_random,
        };
        let second_smg: usize = match args.turn2_ingress {
            Turn2Ingress::Same => smg,
            Turn2Ingress::Hash => hashed,
            Turn2Ingress::Random => draws.second_random,
        };
        Session {
            first: Turn { sid, turn: 1, key, smg, input_ids, max_new: draws.first_max_new },
            has_second: draws.has_second,
            second_smg,
            second_max_new: draws.second_max_new,
        }
    }

    /// The second turn, if there is one: it extends the first turn's prompt by
    /// what came back and by a suffix. After a failed first turn there is
    /// nothing to extend.
    pub fn second(self, output: Option<Vec<u32>>, suffix: Vec<u32>) -> (r: Option<Turn>)
        requires
            output matches Some(ids) ==> self.first.input_ids@.len() + ids@.len() + suffix@.len()
                <= usize::MAX,
        ensures
            follows(self, output, suffix@, r),
    {
        if !self.has_second {
            return None;
        }
        match output {
            None => None,
            Some(ids) => {
                let Turn { sid, turn: _, key, smg: _, input_ids, max_new: _ } = self.first;
                let mut input_ids = input_ids;
                let mut ids = ids;
                let mut suffix = suffix;
                input_ids.append(&mut ids);
                input_ids.append(&mut suffix);
                Some(
                    Turn {
                        sid,
                        turn: 2,
                        key,
                        smg: self.second_smg,
                        input_ids,
                        max_new: self.second_max_new,
                    },
                )
            },
        }
    }
}

/// A prompt is as long as was drawn, or as its prefix and its images are if that
/// is longer.
pub proof fn prompts_have_the_drawn_length(
    args: LoadArgs,
    prefix: Seq<u32>,
    padding: Seq<u32>,
    prompt_len: nat,
)
    requires
        padding.len() == args.padding(prefix.len() as int, prompt_len as int),
    ensures
        first_prompt(args, prefix, padding).len() == if prefix.len() + args.placeholders()
            < prompt_len {
            prompt_len as int
        } else {
            prefix.len() + args.placeholders()
        },
{
    assert(args.placeholders() >= 0) by (nonlinear_arith)
        requires
            args.placeholders() == args.image_placeholder_run * args.image_count,
    ;
}

// ── What is sent ────────────────────────────────────────────────────────────

/// Ids in decimal.
pub open spec fn decimals(ids: Seq<u32>) -> Seq<Seq<char>> {
    ids.map_values(|x: u32| decimal(x as nat))
}

/// Texts in quotes.
pub open spec fn quoted(parts: Seq<Seq<char>>) -> Seq<Seq<char>> {
    parts.map_values(|s: Seq<char>| "\""@ + s + "\""@)
}

fn push_ids(out: &mut String, ids: &Vec<u32>, n: usize)
    requires
        n <= ids@.len(),
    ensures
        final(out)@ == old(out)@ + joined(decimals(ids@.take(n as int)), ","@),
{
    let mut i: usize = 0;
    let ghost pre = out@;
    proof {
        assert(decimals(ids@.take(0)) =~= Seq::empty());
        assert(pre + Seq::<char>::empty() =~= pre);
    }
    while i < n
        invariant
            i <= n <= ids@.len(),
            out@ == pre + joined(decimals(ids@.take(i as int)), ","@),
        decreases n - i,
    {
        let ghost now = decimals(ids@.take(i + 1));
        let ghost before = out@;
        proof {
            assert(now.drop_last() =~= decimals(ids@.take(i as int)));
            assert(now.last() == decimal(ids@[i as int] as nat));
        }
        if i > 0 {
            out.append(",");
        }
        text::push_decimal(out, ids[i] as u64);
        proof {
            if i == 0 {
                assert(out@ =~= pre + now[0]);
            } else {
                assert(out@ =~= pre + (joined(now.drop_last(), ","@) + ","@ + now.last()));
            }
        }
        i = i + 1;
    }
}

/// The images of a request.
pub open spec fn image_texts(images: Seq<String>) -> Seq<Seq<char>> {
    images.map_values(|s: String| s@)
}

fn push_images(out: &mut String, images: &Vec<String>)
    ensures
        final(out)@ == old(out)@ + joined(quoted(image_texts(images@)), ","@),
{
    let mut i: usize = 0;
    let ghost pre = out@;
    proof {
        assert(quoted(image_texts(images@.take(0))) =~= Seq::empty());
        assert(pre + Seq::<char>::empty() =~= pre);
    }
    while i < images.len()
        invariant
            i <= images@.len(),
            out@ == pre + joined(quoted(image_texts(images@.take(i as int))), ","@),
        decreases images@.len() - i,
    {
        let ghost now = quoted(image_texts(images@.take(i + 1)));
        proof {
            assert(now.drop_last() =~= quoted(image_texts(images@.take(i as int))));
            assert(now.last() == "\""@ + images@[i as int]@ + "\""@);
        }
        if i > 0 {
            out.append(",");
        }
        out.append("\"");
        out.append(images[i].as_str());
        out.append("\"");
        proof {
            if i == 0 {
                assert(out@ =~= pre + now[0]);
            } else {
                assert(out@ =~= pre + (joined(now.drop_last(), ","@) + ","@ + now.last()));
            }
        }
        i = i + 1;
    }
    assert(images@.take(i as int) =~= images@);
}

/// The body of a request.
pub open spec fn body_text(
    input_ids: Seq<u32>,
    images: Seq<Seq<char>>,
    max_new: u32,
    stream: bool,
) -> Seq<char> {
    "{\"input_ids\":["@ + joined(decimals(input_ids), ","@) + "]"@ + (if images.len() == 0 {
        ""@
    } else {
        ",\"image_data\":["@ + joined(quoted(images), ","@) + "]"@
    }) + ",\"sampling_params\":{\"max_new_tokens\":"@ + decimal(max_new as nat) + "},\"stream\":"@
        + (if stream {
        "true"@
    } else {
        "false"@
    }) + "}"@
}

/// The body of a request, written by hand: large images are copied once. They
/// hold nothing that JSON escapes.
pub fn build_body(input_ids: &Vec<u32>, images: &Vec<String>, max_new: u32, stream: bool) -> (r:
    String)
    ensures
        r@ == body_text(input_ids@, image_texts(images@), max_new, stream),
{
    let mut body = "{\"input_ids\":[".to_owned();
    push_ids(&mut body, input_ids, input_ids.len());
    assert(input_ids@.take(input_ids@.len() as int) =~= input_ids@);
    body.append("]");
    let ghost head = body@;
    if images.len() > 0 {
        body.append(",\"image_data\":[");
        push_images(&mut body, images);
        body.append("]");
    }
    let ghost middle = if images@.len() == 0 {
        ""@
    } else {
        ",\"image_data\":["@ + joined(quoted(image_texts(images@)), ","@) + "]"@
    };
    proof {
        reveal_strlit("");
        assert(body@ =~= head + middle);
    }
    body.append(",\"sampling_params\":{\"max_new_tokens\":");
    text::push_decimal(&mut body, max_new as u64);
    body.append("},\"stream\":");
    if stream {
        body.append("true");
    } else {
        body.append("false");
    }
    body.append("}");
    body
}

/// What a turn sends.
pub struct Outgoing {
    pub url: String,
    pub body: String,
    /// The value of the header with a routing hint.
    pub hint: Option<String>,
}

/// The first ids of a prompt, as far as a hint carries them.
pub open spec fn hinted(input_ids: Seq<u32>) -> Seq<u32> {
    if input_ids.len() < TOKENS_HINT_CAP {
        input_ids
    } else {
        input_ids.take(TOKENS_HINT_CAP as int)
    }
}

impl Turn {
    /// What the turn sends.
    pub fn prepare(&self, args: &LoadArgs, images: &Vec<String>) -> (r: Outgoing)
        requires
            self.smg < args.smg_urls@.len(),
        ensures
            r.url@ == args.smg_urls@[self.smg as int]@ + "/generate"@,
            r.body@ == body_text(
                self.input_ids@,
                image_texts(images@),
                self.max_new,
                args.stream,
            ),
            r.hint is Some <==> args.tokens_hint,
            r.hint matches Some(h) ==> h@ == joined(decimals(hinted(self.input_ids@)), ","@),
    {
        let mut url = args.smg_urls[self.smg].as_str().to_owned();
        url.append("/generate");
        let hint: Option<String> = if args.tokens_hint {
            let n: usize = if self.input_ids.len() < TOKENS_HINT_CAP {
                self.input_ids.len()
            } else {
                TOKENS_HINT_CAP
            };
            let mut h = String::new();
            push_ids(&mut h, &self.input_ids, n);
            proof {
                reveal_strlit("");
                assert(self.input_ids@.take(n as int) =~= hinted(self.input_ids@));
                assert(h@ =~= joined(decimals(hinted(self.input_ids@)), ","@));
            }
            Some(h)
        } else {
            None
        };
        Outgoing {
            url,
            body: build_body(&self.input_ids, images, self.max_new, args.stream),
            hint,
        }
    }
}

// ── What comes back ─────────────────────────────────────────────────────────

/// What came back.
pub enum Arrival {
    /// No response came.
    Unreachable,
    /// A response came, and was dropped: its status is no success.
    Refused { status: u16 },
    /// A response of success came, but broke off.
    Broken,
    /// A whole response of success came, with a document if it holds one.
    Whole { status: u16, response: Option<Value> },
}

/// Whether a status is a success.
pub open spec fn succeeded(status: u16) -> bool {
    200 <= status < 300
}

/// The status on record: 0 where the transport failed.
pub open spec fn status_of(a: Arrival) -> u16 {
    match a {
        Arrival::Refused { status } => status,
        Arrival::Whole { status, response } => status,
        _ => 0,
    }
}

/// The document of an answer: null if there is none.
pub open spec fn document_of(a: Arrival) -> JsonView {
    match a {
        Arrival::Whole { status, response: Some(v) } => json_tree(v),
        _ => JsonView::Null,
    }
}

/// What an answer says of itself.
pub open spec fn meta_of(tree: JsonView, key: Seq<char>) -> Option<u64> {
    match field(tree, "meta_info"@) {
        Some(m) => natural_field(m, key),
        None => None,
    }
}

/// The output of an answer, if it carries any.
pub open spec fn output_of(tree: JsonView) -> Option<Seq<u32>> {
    match field(tree, "output_ids"@) {
        Some(JsonView::Array(items)) => Some(naturals_of(items)),
        _ => None,
    }
}

/// What a whole response that is not a stream holds.
pub fn read_response(bytes: &[u8]) -> (r: Option<Value>)
    ensures
        json_document(bytes@) == (match r {
            Some(v) => Some(json_tree(v)),
            None => None::<JsonView>,
        }),
{
    json::parse(bytes)
}

fn meta_number(v: &Value, key: &str) -> (r: Option<u64>)
    ensures
        r == meta_of(json_tree(*v), key@),
{
    match json::get(v, "meta_info") {
        Some(m) => json::get_u64(m, key),
        None => None,
    }
}

/// Requests sent, done and failed.
pub struct Tally {
    pub sent: u64,
    pub done: u64,
    pub errors: u64,
}

impl Tally {
    /// Counts a request that goes out.
    pub fn send(&mut self)
        ensures
            *final(self) == (Tally { sent: old(self).sent.wrapping_add(1), ..*old(self) }),
    {
        self.sent = self.sent.wrapping_add(1);
    }
}

/// How long a request took, in whole milliseconds, and when it began.
pub struct Timing {
    pub elapsed_ms: u64,
    pub start_ms: u64,
}

/// The output of a turn: none of one that failed, none to extend by of one that carries none.
pub open spec fn yields(a: Arrival, output: Option<Vec<u32>>) -> bool {
    &&& succeeded(status_of(a)) <==> output is Some
    &&& output matches Some(ids) ==> ids@ == match output_of(document_of(a)) {
        Some(x) => x,
        None => Seq::empty(),
    }
}

/// What is counted after a turn.
pub open spec fn tallied(pre: Tally, a: Arrival, post: Tally) -> bool {
    &&& post.sent == pre.sent
    &&& post.done == pre.done.wrapping_add(1)
    &&& post.errors == if succeeded(status_of(a)) {
        pre.errors
    } else {
        pre.errors.wrapping_add(1)
    }
}

/// The record of a turn.
pub open spec fn recorded(turn: Turn, a: Arrival, t: Timing, r: RequestRecord) -> bool {
    let tree = document_of(a);
    &&& r.turn == turn.turn
    &&& r.session == turn.sid
    &&& r.key@ == turn.key@
    &&& r.smg == turn.smg
    &&& r.worker_port == meta_of(tree, "worker_port"@)
    &&& r.prompt_tokens == turn.input_ids@.len()
    &&& r.cached_tokens == meta_of(tree, "cached_tokens"@)
    &&& r.completion_tokens == meta_of(tree, "completion_tokens"@)
    &&& r.max_new == turn.max_new
    &&& r.elapsed_ms == t.elapsed_ms
    &&& r.status == status_of(a)
    &&& r.start_ms == t.start_ms
}

impl Turn {
    /// Settles a turn: its record, and its output if it succeeded, which is empty
    /// where the answer carries none.
    pub fn settle(&self, arrival: &Arrival, timing: &Timing, tally: &mut Tally) -> (r: (
        RequestRecord,
        Option<Vec<u32>>,
    ))
        ensures
            recorded(*self, *arrival, *timing, r.0),
            yields(*arrival, r.1),
            tallied(*old(tally), *arrival, *final(tally)),
    {
        let status: u16 = match arrival {
            Arrival::Refused { status } => *status,
            Arrival::Whole { status, response: _ } => *status,
            Arrival::Unreachable => 0,
            Arrival::Broken => 0,
        };
        let mut worker_port: Option<u64> = None;
        let mut cached_tokens: Option<u64> = None;
        let mut completion_tokens: Option<u64> = None;
        let mut output: Vec<u32> = Vec::new();
        match arrival {
            Arrival::Whole { status: _, response: Some(v) } => {
                worker_port = meta_number(v, "worker_port");
                cached_tokens = meta_number(v, "cached_tokens");
                completion_tokens = meta_number(v, "completion_tokens");
                match json::get(v, "output_ids") {
                    Some(ids) => match json::as_array(ids) {
                        Some(items) => {
                            output = naturals(items);
                        },
                        None => {},
                    },
                    None => {},
                }
            },
            _ => {},
        }
        let ok: bool = 200 <= status && status < 300;
        if !ok {
            tally.errors = tally.errors.wrapping_add(1);
        }
        tally.done = tally.done.wrapping_add(1);
        let record = RequestRecord {
            turn: self.turn,
            session: self.sid,
            key: self.key.as_str().to_owned(),
            smg: self.smg,
            worker_port,
            prompt_tokens: self.input_ids.len(),
            cached_tokens,
            completion_tokens,
            max_new: self.max_new,
            elapsed_ms: timing.elapsed_ms,
            status,
            start_ms: timing.start_ms,
        };
        (
            record,
            if ok {
                Some(output)
            } else {
                None
            },
        )
    }
}

} // verus!
