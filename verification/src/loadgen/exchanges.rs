//! What sessions send, what they make of answers, and how streams of answers are read.

use super::report::RequestRecord;
use super::session::body_text;
use super::session::decimals;
use super::session::document_of;
use super::session::first_prompt;
use super::session::first_target;
use super::session::follows;
use super::session::hinted;
use super::session::planned;
use super::session::key_of;
use super::session::output_of;
use super::session::quoted;
use super::session::recorded;
use super::session::second_target;
use super::session::status_of;
use super::session::succeeded;
use super::session::tallied;
use super::session::yields;
use super::session::Arrival;
use super::session::Draws;
use super::session::Ingress;
use super::session::LoadArgs;
use super::session::Session;
use super::session::Tally;
use super::session::Timing;
use super::session::Turn;
use super::session::Turn2Ingress;
use super::sse::data_mark;
use super::sse::data_of;
use super::sse::done_mark;
use super::sse::line_end;
use super::sse::line_end_in_range;
use super::sse::SseView;
use crate::json::json_document;
use crate::json::json_tree;
use crate::json::JsonView;
use crate::mock::replies::has;
use crate::mock::replies::listed_ids_are_read;
use crate::mock::replies::listing;
use crate::mock::replies::no_list;
use crate::mock::replies::no_number;
use crate::mock::replies::whole;
use crate::text::decimal;
use crate::text::joined;
use crate::text::numbers_are_told_apart;
use vstd::prelude::*;

verus! {

// ── Where turns go, and what they carry ─────────────────────────────────────

/// A session has a key of its own, unless it shares one: no two keys of one kind are alike.
pub proof fn keys_are_told_apart(a: u64, b: u64, sid: u64, other: u64)
    ensures
        key_of(Some(a), sid) == key_of(Some(b), other) ==> a == b,
        key_of(Some(a), sid) == key_of(Some(a), other),
        key_of(None, sid) == key_of(None, other) ==> sid == other,
        key_of(Some(a), sid) != key_of(None, other),
{
    reveal_strlit("shared-");
    reveal_strlit("sess-");
    behind_a_prefix("shared-"@, decimal(a as nat), decimal(b as nat));
    behind_a_prefix("sess-"@, decimal(sid as nat), decimal(other as nat));
    if decimal(a as nat) == decimal(b as nat) {
        numbers_are_told_apart(a as nat, b as nat);
    }
    if decimal(sid as nat) == decimal(other as nat) {
        numbers_are_told_apart(sid as nat, other as nat);
    }
    assert(key_of(Some(a), sid)[1] == 'h');
    assert(key_of(None, other)[1] == 'e');
}

proof fn behind_a_prefix(p: Seq<char>, a: Seq<char>, b: Seq<char>)
    ensures
        p + a == p + b ==> a == b,
{
    if p + a == p + b {
        assert((p + a).skip(p.len() as int) =~= a);
        assert((p + b).skip(p.len() as int) =~= b);
    }
}

/// By its hash a key always goes to one gateway; a second turn goes where the first went,
/// where the hash says, or where chance says.
pub proof fn turns_go_where_told(args: LoadArgs, d: Draws, e: Draws, n: int)
    requires
        n > 0,
        d.first_random < n,
        d.second_random < n,
    ensures
        0 <= first_target(args.ingress, d, n) < n,
        0 <= second_target(args, d, n) < n,
        first_target(Ingress::Random, d, n) == d.first_random,
        d.key_hash == e.key_hash ==> first_target(Ingress::Hash, d, n) == first_target(
            Ingress::Hash,
            e,
            n,
        ),
        first_target(Ingress::Hash, d, n) == d.key_hash as int % n,
        args.turn2_ingress == Turn2Ingress::Same ==> second_target(args, d, n) == first_target(
            args.ingress,
            d,
            n,
        ),
        args.turn2_ingress == Turn2Ingress::Hash ==> second_target(args, d, n) == first_target(
            Ingress::Hash,
            d,
            n,
        ),
        args.turn2_ingress == Turn2Ingress::Random ==> second_target(args, d, n)
            == d.second_random,
{
}

/// A prompt is its prefix, then a run of placeholders per image, then what fills it up.
pub proof fn prompts_are_put_together(
    args: LoadArgs,
    prefix: Seq<u32>,
    padding: Seq<u32>,
    i: int,
)
    ensures
        ({
            let p = first_prompt(args, prefix, padding);
            let images = args.image_placeholder_run * args.image_count;
            &&& p.len() == prefix.len() + images + padding.len()
            &&& 0 <= i < prefix.len() ==> p[i] == prefix[i]
            &&& 0 <= i < images ==> p[prefix.len() + i] == args.image_placeholder_id
            &&& 0 <= i < padding.len() ==> p[prefix.len() + images + i] == padding[i]
        }),
        args.padding(prefix.len() as int, i) >= 0,
        args.padding(prefix.len() as int, i) + prefix.len() + args.image_placeholder_run
            * args.image_count >= i,
        args.padding(prefix.len() as int, i) > 0 ==> args.padding(prefix.len() as int, i)
            + prefix.len() + args.image_placeholder_run * args.image_count == i,
{
    assert(args.image_placeholder_run * args.image_count >= 0) by (nonlinear_arith);
}

/// Texts in a row have what was asked for between any two, and nothing at the ends.
pub proof fn joins_put_between(parts: Seq<Seq<char>>, part: Seq<char>, between: Seq<char>)
    ensures
        joined(Seq::empty(), between).len() == 0,
        joined(seq![part], between) == part,
        parts.len() > 0 ==> joined(parts.push(part), between) == joined(parts, between) + between
            + part,
{
    assert(parts.push(part).drop_last() =~= parts);
    assert(seq![part][0] == part);
}

/// Ids are written in decimal, one for one, and texts in quotes.
pub proof fn items_are_written_one_for_one(ids: Seq<u32>, images: Seq<Seq<char>>, i: int)
    ensures
        decimals(ids).len() == ids.len(),
        0 <= i < ids.len() ==> decimals(ids)[i] == decimal(ids[i] as nat),
        quoted(images).len() == images.len(),
        0 <= i < images.len() ==> quoted(images)[i].len() == images[i].len() + 2
            && quoted(images)[i][0] == '"' && quoted(images)[i].last() == '"'
            && quoted(images)[i].subrange(1, 1int + images[i].len()) == images[i],
{
    reveal_strlit("\"");
    if 0 <= i < images.len() {
        let q = quoted(images)[i];
        assert(q == "\""@ + images[i] + "\""@);
        assert(q.subrange(1, 1int + images[i].len()) =~= images[i]);
    }
}

/// A request says all that it was made of: the ids and the images, each in a list of its
/// own, how much is asked for, and whether it is streamed. Without images there is no list
/// of them.
pub proof fn requests_say_what_is_asked(
    ids: Seq<u32>,
    images: Seq<Seq<char>>,
    max_new: u32,
    stream: bool,
)
    ensures
        ({
            let body = body_text(ids, images, max_new, stream);
            let listed = "{\"input_ids\":["@ + joined(decimals(ids), ","@) + "]"@;
            let pictured = ",\"image_data\":["@ + joined(quoted(images), ","@) + "]"@;
            let sampled = ",\"sampling_params\":{\"max_new_tokens\":"@ + decimal(max_new as nat)
                + "},\"stream\":"@;
            let streamed = if stream {
                "true}"@
            } else {
                "false}"@
            };
            body == if images.len() > 0 {
                listed + pictured + sampled + streamed
            } else {
                listed + sampled + streamed
            }
        }),
{
    let (a, b) = ("{\"input_ids\":["@, joined(decimals(ids), ","@));
    let (c, d) = (",\"sampling_params\":{\"max_new_tokens\":"@, decimal(max_new as nat));
    let e = "},\"stream\":"@;
    let (p, q) = (",\"image_data\":["@, joined(quoted(images), ","@));
    reveal_strlit("");
    reveal_strlit("}");
    reveal_strlit("true");
    reveal_strlit("false");
    reveal_strlit("true}");
    reveal_strlit("false}");
    assert("true"@ + "}"@ =~= "true}"@);
    assert("false"@ + "}"@ =~= "false}"@);
    let s = if stream {
        "true"@
    } else {
        "false"@
    };
    if images.len() > 0 {
        assert(a + b + "]"@ + (p + q + "]"@) + c + d + e + s + "}"@ =~= (a + b + "]"@) + (p + q
            + "]"@) + (c + d + e) + (s + "}"@));
    } else {
        assert(a + b + "]"@ + ""@ + c + d + e + s + "}"@ =~= (a + b + "]"@) + (c + d + e) + (s
            + "}"@));
    }
}

/// A hint is the beginning of the prompt: all of a short one, 512 ids of a longer one.
pub proof fn hints_begin_the_prompt(ids: Seq<u32>, i: int)
    ensures
        hinted(ids).len() == if ids.len() < 512 {
            ids.len()
        } else {
            512
        },
        0 <= i < hinted(ids).len() ==> hinted(ids)[i] == ids[i],
{
}

// ── What comes back ─────────────────────────────────────────────────────────

/// A turn is recorded with what was sent and what came back. Nothing that failed on its way
/// has a status, and only a whole answer says anything of itself.
pub proof fn turns_are_recorded(
    turn: Turn,
    a: Arrival,
    t: Timing,
    r: RequestRecord,
    info: JsonView,
    n: u64,
)
    requires
        recorded(turn, a, t, r),
    ensures
        (r.turn, r.session, r.smg, r.max_new) == (turn.turn, turn.sid, turn.smg, turn.max_new),
        r.key@ == turn.key@,
        r.prompt_tokens == turn.input_ids@.len(),
        (r.elapsed_ms, r.start_ms) == (t.elapsed_ms, t.start_ms),
        a is Unreachable || a is Broken ==> r.status == 0,
        a matches Arrival::Refused { status } ==> r.status == status,
        a matches Arrival::Whole { status, response } ==> r.status == status,
        !(a is Whole) ==> r.worker_port is None && r.cached_tokens is None && r.completion_tokens
            is None,
        a matches Arrival::Whole { status, response: Some(v) } ==> (has(
            json_tree(v),
            "meta_info"@,
            info,
        ) ==> (has(info, "worker_port"@, whole(n)) ==> r.worker_port == Some(n)) && (has(
            info,
            "cached_tokens"@,
            whole(n),
        ) ==> r.cached_tokens == Some(n)) && (has(info, "completion_tokens"@, whole(n))
            ==> r.completion_tokens == Some(n)) && (no_number(info, "worker_port"@) ==> r.worker_port
            is None) && (no_number(info, "cached_tokens"@) ==> r.cached_tokens is None) && (no_number(
            info,
            "completion_tokens"@,
        ) ==> r.completion_tokens is None)),
{
}

/// Only statuses of success are one, and an answer's output is the list of its ids.
pub proof fn successes_have_their_output(a: Arrival, status: u16, tree: JsonView, ids: Seq<u32>)
    ensures
        succeeded(status) <==> status / 100 == 2,
        a is Unreachable || a is Broken ==> !succeeded(status_of(a)),
        has(tree, "output_ids"@, JsonView::Array(listing(ids))) ==> output_of(tree) == Some(ids),
        no_list(tree, "output_ids"@) ==> output_of(tree) is None,
        !(a is Whole) ==> output_of(document_of(a)) is None,
{
    listed_ids_are_read(ids, JsonView::Null, Seq::empty());
}

// ── Streams ─────────────────────────────────────────────────────────────────

/// Bytes without the end of a line.
pub open spec fn one_line(bytes: Seq<u8>) -> bool {
    forall|i: int| 0 <= i < bytes.len() ==> #[trigger] bytes[i] != 10 && bytes[i] != 13
}

/// `data:`, with a space behind it or without, and `[DONE]`, in ASCII.
pub open spec fn marked(spaced: bool, data: Seq<u8>) -> Seq<u8> {
    seq![0x64u8, 0x61u8, 0x74u8, 0x61u8, 0x3au8] + if spaced {
        seq![0x20u8]
    } else {
        Seq::empty()
    } + data
}

/// The mark of the end.
pub open spec fn the_end() -> Seq<u8> {
    seq![0x5bu8, 0x44u8, 0x4fu8, 0x4eu8, 0x45u8, 0x5du8]
}

/// A line, with a carriage return at its end or without.
pub open spec fn closed_line(line: Seq<u8>, returned: bool) -> Seq<u8> {
    line + if returned {
        seq![13u8, 10u8]
    } else {
        seq![10u8]
    }
}

proof fn line_is_taken(v: SseView, line: Seq<u8>, returned: bool)
    requires
        one_line(line),
        !v.ended,
        v.buf.len() == 0,
    ensures
        v.fed(closed_line(line, returned)) == v.after_line(line),
{
    let bytes = closed_line(line, returned);
    let n = bytes.len() - 1;
    line_end_in_range(bytes);
    assert(bytes[n] == 10);
    assert forall|i: int| 0 <= i < n implies bytes[i] != 10 by {
        if i < line.len() {
            assert(bytes[i] == line[i]);
        }
    }
    assert(line_end(bytes) == n);
    assert(v.buf + bytes =~= bytes);
    let full = SseView { buf: bytes, ..v };
    let rest = SseView { buf: bytes.skip(n + 1), ..v };
    assert(bytes.skip(n + 1) =~= Seq::empty());
    assert(v.buf =~= Seq::empty());
    assert(rest == v);
    let taken = bytes.take(n);
    assert(super::sse::without_return(taken) =~= line) by {
        if returned {
            assert(taken.last() == 13);
            assert(taken.drop_last() =~= line);
        } else {
            assert(taken =~= line);
            if line.len() > 0 {
                assert(line[line.len() - 1] != 13);
            }
        }
    }
    assert(super::sse::without_return(line) =~= line) by {
        if line.len() > 0 {
            assert(line[line.len() - 1] != 13);
        }
    }
    assert(v.after_line(taken) == v.after_line(line));
    let next = v.after_line(line);
    assert(next.buf.len() == 0);
    assert(next.drained() == next);
    assert(full.drained() == next);
}

/// A frame's document counts: the last one that there was is kept. A space behind the mark
/// and a carriage return at the end make no difference.
pub proof fn frames_are_read(v: SseView, data: Seq<u8>, spaced: bool, returned: bool)
    requires
        one_line(data),
        !v.ended,
        v.buf.len() == 0,
        data != the_end(),
        !spaced ==> data.len() > 0 && data[0] != 0x20,
    ensures
        ({
            let w = v.fed(closed_line(marked(spaced, data), returned));
            &&& w.seen && !w.ended && w.buf.len() == 0
            &&& json_document(data) is Some ==> w.last == json_document(data)
            &&& json_document(data) is None ==> w.last == v.last
        }),
{
    let line = marked(spaced, data);
    assert(one_line(line));
    line_is_taken(v, line, returned);
    data_is_behind_the_mark(data, spaced);
}

proof fn data_is_behind_the_mark(data: Seq<u8>, spaced: bool)
    requires
        one_line(data),
        !spaced ==> data.len() > 0 && data[0] != 0x20,
    ensures
        data_of(super::sse::without_return(marked(spaced, data))) == Some(data),
{
    let line = marked(spaced, data);
    assert(line[line.len() - 1] != 13);
    assert(super::sse::without_return(line) == line);
    let mark = data_mark();
    assert(mark.is_prefix_of(line)) by {
        assert(line.subrange(0, 5) =~= mark);
    }
    if spaced {
        assert(line.subrange(0, 6) =~= mark.push(32));
        assert(line.skip(6) =~= data);
    } else {
        assert(line[5] == data[0]);
        if mark.push(32).is_prefix_of(line) {
            assert(line.subrange(0, 6)[5] == 32);
        }
        assert(line.skip(5) =~= data);
    }
}

/// The mark of the end ends the stream: nothing behind it counts, and what was read stays.
pub proof fn the_mark_ends_the_stream(v: SseView, more: Seq<u8>, spaced: bool, returned: bool)
    requires
        !v.ended,
        v.buf.len() == 0,
    ensures
        ({
            let w = v.fed(closed_line(marked(spaced, the_end()), returned));
            &&& w.ended && w.last == v.last && w.seen == v.seen
            &&& w.fed(more) == w
        }),
{
    let line = marked(spaced, the_end());
    assert(one_line(the_end()));
    assert(one_line(line));
    line_is_taken(v, line, returned);
    data_is_behind_the_mark(the_end(), spaced);
    assert(the_end() =~= done_mark());
}

/// Other lines are passed over, and a line that has not ended waits.
pub proof fn other_lines_are_passed_over(v: SseView, line: Seq<u8>, returned: bool)
    requires
        one_line(line),
        !v.ended,
        v.buf.len() == 0,
    ensures
        line.len() < 5 || line.take(5) != seq![0x64u8, 0x61u8, 0x74u8, 0x61u8, 0x3au8] ==> v.fed(
            closed_line(line, returned),
        ) == v,
        v.fed(line) == (SseView { buf: line, ..v }),
{
    line_is_taken(v, line, returned);
    let mark = data_mark();
    assert(super::sse::without_return(line) =~= line) by {
        if line.len() > 0 {
            assert(line[line.len() - 1] != 13);
        }
    }
    if mark.is_prefix_of(line) {
        assert(line.take(5) =~= mark);
    }
    if mark.push(32).is_prefix_of(line) {
        assert(line.take(5) =~= mark) by {
            assert(line.subrange(0, 6) == mark.push(32));
            assert forall|i: int| 0 <= i < 5 implies line[i] == mark[i] by {
                assert(line.subrange(0, 6)[i] == line[i]);
            }
        }
    }
    assert(v.buf + line =~= line);
    line_end_in_range(line);
    let full = SseView { buf: line, ..v };
    assert(line_end(line) == line.len());
    assert(full.drained() == full);
}

// ── Turns ───────────────────────────────────────────────────────────────────

/// A session's second turn is the first one, gone on: the same session and key, the first
/// prompt, what came back, and more behind it. There is one only after a success, and only
/// where one was drawn.
pub proof fn second_turns_go_on(
    args: LoadArgs,
    sid: u64,
    key: Seq<char>,
    prefix: Seq<u32>,
    padding: Seq<u32>,
    d: Draws,
    s: Session,
    a: Arrival,
    output: Option<Vec<u32>>,
    suffix: Seq<u32>,
    r: Option<Turn>,
)
    requires
        planned(args, sid, key, prefix, padding, d, s),
        yields(a, output),
        follows(s, output, suffix, r),
    ensures
        (s.first.sid, s.first.turn, s.first.max_new) == (sid, 1u8, d.first_max_new),
        s.first.key@ == key,
        prefix.is_prefix_of(s.first.input_ids@),
        r is Some <==> d.has_second && 200 <= status_of(a) <= 299,
        r matches Some(t) ==> {
            &&& (t.sid, t.turn, t.max_new) == (sid, 2u8, d.second_max_new)
            &&& t.key@ == key
            &&& t.smg == second_target(args, d, args.smg_urls@.len() as int)
            &&& s.first.input_ids@.is_prefix_of(t.input_ids@)
            &&& t.input_ids@.len() == s.first.input_ids@.len() + (output->0)@.len() + suffix.len()
            &&& t.input_ids@.skip(s.first.input_ids@.len() as int) == (output->0)@ + suffix
        },
{
    let p = s.first.input_ids@;
    assert(p.subrange(0, prefix.len() as int) =~= prefix);
    if let Some(t) = r {
        let o = (output->0)@;
        assert(t.input_ids@.subrange(0, p.len() as int) =~= p);
        assert(t.input_ids@.skip(p.len() as int) =~= o + suffix);
    }
}

/// Every turn that settles is counted as done, and as a failure too where it failed; what
/// was sent stays counted.
pub proof fn settled_turns_are_counted(pre: Tally, a: Arrival, post: Tally)
    requires
        tallied(pre, a, post),
        pre.done < u64::MAX,
        pre.errors < u64::MAX,
    ensures
        post.done == pre.done + 1,
        post.sent == pre.sent,
        post.errors - pre.errors == if 200 <= status_of(a) <= 299 {
            0int
        } else {
            1
        },
{
}

} // verus!
