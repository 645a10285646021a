//! Server-sent events, read from bytes as they come in.

use crate::json;
use crate::json::json_document;
use crate::json::json_tree;
use crate::json::JsonView;
use serde_json::Value;
use vstd::prelude::*;

verus! {

/// A reader of server-sent events as plain values.
pub struct SseView {
    /// Bytes of a line that has not ended.
    pub buf: Seq<u8>,
    /// Whether a data frame came.
    pub seen: bool,
    /// The last frame that holds a document.
    pub last: Option<JsonView>,
    /// Whether the mark of the end came.
    pub ended: bool,
}

/// Where the first line ends: at the length of the bytes if it does not.
pub open spec fn line_end(buf: Seq<u8>) -> int
    decreases buf.len(),
{
    if buf.len() == 0 {
        0
    } else if buf[0] == 10 {
        0
    } else {
        1 + line_end(buf.skip(1))
    }
}

/// A line without the carriage return at its end.
pub open spec fn without_return(line: Seq<u8>) -> Seq<u8> {
    if line.len() > 0 && line.last() == 13 {
        line.drop_last()
    } else {
        line
    }
}

/// `data:`
pub open spec fn data_mark() -> Seq<u8> {
    seq![100u8, 97u8, 116u8, 97u8, 58u8]
}

/// `[DONE]`
pub open spec fn done_mark() -> Seq<u8> {
    seq![91u8, 68u8, 79u8, 78u8, 69u8, 93u8]
}

/// The data of a line, if it has any: behind the mark, and behind one space.
pub open spec fn data_of(line: Seq<u8>) -> Option<Seq<u8>> {
    if data_mark().push(32).is_prefix_of(line) {
        Some(line.skip(6))
    } else if data_mark().is_prefix_of(line) {
        Some(line.skip(5))
    } else {
        None
    }
}

impl SseView {
    /// After a line.
    pub open spec fn after_line(self, line: Seq<u8>) -> SseView {
        match data_of(without_return(line)) {
            None => self,
            Some(data) => if data == done_mark() {
                SseView { buf: Seq::empty(), ended: true, ..self }
            } else {
                SseView {
                    seen: true,
                    last: match json_document(data) {
                        Some(v) => Some(v),
                        None => self.last,
                    },
                    ..self
                }
            },
        }
    }

    /// After all lines that have ended.
    pub open spec fn drained(self) -> SseView
        decreases self.buf.len(),
    {
        let end = line_end(self.buf);
        if self.ended || end >= self.buf.len() {
            self
        } else {
            proof {
                line_end_in_range(self.buf);
            }
            let rest = SseView { buf: self.buf.skip(end + 1), ..self };
            rest.after_line(self.buf.take(end)).drained()
        }
    }

    /// After more bytes. Behind the mark of the end nothing counts.
    pub open spec fn fed(self, chunk: Seq<u8>) -> SseView {
        if self.ended {
            self
        } else {
            (SseView { buf: self.buf + chunk, ..self }).drained()
        }
    }
}

/// A line ends at the first newline.
pub proof fn line_end_in_range(buf: Seq<u8>)
    ensures
        0 <= line_end(buf) <= buf.len(),
        line_end(buf) < buf.len() ==> buf[line_end(buf)] == 10,
        forall|i: int| 0 <= i < line_end(buf) ==> buf[i] != 10,
    decreases buf.len(),
{
    if buf.len() > 0 && buf[0] != 10 {
        let rest = buf.skip(1);
        line_end_in_range(rest);
        assert forall|i: int| 0 <= i < line_end(buf) implies buf[i] != 10 by {
            if i > 0 {
                assert(rest[i - 1] == buf[i]);
            }
        }
    }
}

proof fn line_end_is(buf: Seq<u8>, n: int)
    requires
        0 <= n < buf.len(),
        buf[n] == 10,
        forall|i: int| 0 <= i < n ==> buf[i] != 10,
    ensures
        line_end(buf) == n,
{
    line_end_in_range(buf);
    let m = line_end(buf);
    if m < n {
        assert(buf[m] == 10);
    } else if n < m {
        assert(buf[n] != 10);
    }
}

/// Frames may span chunks: how the bytes are cut does not matter.
pub proof fn chunks_may_be_cut_anywhere(v: SseView, a: Seq<u8>, b: Seq<u8>)
    ensures
        v.fed(a).fed(b) == v.fed(a + b),
{
    if !v.ended {
        let whole = SseView { buf: v.buf + a, ..v };
        cut_behind(whole, b);
        assert(v.buf + (a + b) =~= v.buf + a + b);
    }
}

proof fn cut_behind(v: SseView, b: Seq<u8>)
    requires
        !v.ended,
    ensures
        v.drained().fed(b) == (SseView { buf: v.buf + b, ..v }).drained(),
    decreases v.buf.len(),
{
    let end = line_end(v.buf);
    line_end_in_range(v.buf);
    if end < v.buf.len() {
        let both = v.buf + b;
        assert forall|i: int| 0 <= i < end implies both[i] != 10 by {
            assert(both[i] == v.buf[i]);
        }
        assert(both[end] == v.buf[end]);
        line_end_is(both, end);
        assert(both.take(end) =~= v.buf.take(end));
        assert(both.skip(end + 1) =~= v.buf.skip(end + 1) + b);
        let rest = SseView { buf: v.buf.skip(end + 1), ..v };
        let next = rest.after_line(v.buf.take(end));
        let rest2 = SseView { buf: both.skip(end + 1), ..v };
        let next2 = rest2.after_line(both.take(end));
        assert(v.drained() == next.drained());
        assert((SseView { buf: both, ..v }).drained() == next2.drained());
        if next.ended {
            assert(next2 == next);
            assert(next.drained() == next);
        } else {
            assert(next2 == (SseView { buf: next.buf + b, ..next }));
            cut_behind(next, b);
        }
    }
}

/// A reader of server-sent events.
pub struct SseReader {
    buf: Vec<u8>,
    seen: bool,
    last: Option<Value>,
    ended: bool,
}

impl View for SseReader {
    type V = SseView;

    closed spec fn view(&self) -> SseView {
        SseView {
            buf: self.buf@,
            seen: self.seen,
            last: match self.last {
                Some(v) => Some(json_tree(v)),
                None => None,
            },
            ended: self.ended,
        }
    }
}

/// Whether bytes begin with others.
fn leads(bytes: &[u8], prefix: &[u8]) -> (r: bool)
    ensures
        r == prefix@.is_prefix_of(bytes@),
{
    if prefix.len() > bytes.len() {
        return false;
    }
    let mut i: usize = 0;
    while i < prefix.len()
        invariant
            i <= prefix@.len() <= bytes@.len(),
            forall|j: int| 0 <= j < i ==> bytes@[j] == prefix@[j],
        decreases prefix@.len() - i,
    {
        if bytes[i] != prefix[i] {
            assert(bytes@.take(prefix@.len() as int)[i as int] == bytes@[i as int]);
            return false;
        }
        i = i + 1;
    }
    assert(bytes@.take(prefix@.len() as int) =~= prefix@);
    true
}

impl SseReader {
    /// A reader before the first byte.
    pub fn new() -> (r: SseReader)
        ensures
            r@ == (SseView { buf: Seq::empty(), seen: false, last: None, ended: false }),
    {
        SseReader { buf: Vec::new(), seen: false, last: None, ended: false }
    }

    /// Whether a data frame came.
    pub fn seen(&self) -> (r: bool)
        ensures
            r == self@.seen,
    {
        self.seen
    }

    /// Whether the mark of the end came.
    pub fn ended(&self) -> (r: bool)
        ensures
            r == self@.ended,
    {
        self.ended
    }

    /// The last frame that holds a document.
    pub fn into_last(self) -> (r: Option<Value>)
        ensures
            self@.last == (match r {
                Some(v) => Some(json_tree(v)),
                None => None::<JsonView>,
            }),
    {
        self.last
    }

    fn take_line(&mut self, line: &[u8])
        ensures
            final(self)@ == old(self)@.after_line(line@),
    {
        let mut n: usize = line.len();
        if n > 0 && line[n - 1] == 13 {
            n = n - 1;
        }
        let ghost whole = line@;
        let line = vstd::slice::slice_subrange(line, 0, n);
        assert(line@ =~= without_return(whole));
        let spaced: [u8; 6] = [100, 97, 116, 97, 58, 32];
        let mark: [u8; 5] = [100, 97, 116, 97, 58];
        let done: [u8; 6] = [91, 68, 79, 78, 69, 93];
        proof {
            assert(spaced@ =~= data_mark().push(32));
            assert(mark@ =~= data_mark());
            assert(done@ =~= done_mark());
        }
        let from: usize = if leads(line, spaced.as_slice()) {
            6
        } else if leads(line, mark.as_slice()) {
            5
        } else {
            return;
        };
        let data = vstd::slice::slice_subrange(line, from, line.len());
        assert(data@ =~= line@.skip(from as int));
        if data.len() == 6 && leads(data, done.as_slice()) {
            assert(data@.take(6) =~= data@);
            self.buf = Vec::new();
            self.ended = true;
            return;
        }
        assert(data@ != done_mark()) by {
            if data@ == done_mark() {
                assert(data@.take(6) =~= done_mark());
            }
        }
        self.seen = true;
        match json::parse(data) {
            Some(v) => {
                self.last = Some(v);
            },
            None => {},
        }
    }

    /// Takes more bytes in.
    pub fn feed(&mut self, chunk: &[u8])
        ensures
            final(self)@ == old(self)@.fed(chunk@),
    {
        if self.ended {
            return;
        }
        let mut i: usize = 0;
        let ghost pre = self.buf@;
        while i < chunk.len()
            invariant
                i <= chunk@.len(),
                self.buf@ == pre + chunk@.take(i as int),
                self.seen == old(self).seen,
                self.last == old(self).last,
                !self.ended,
                !old(self).ended,
                old(self).buf@ == pre,
            decreases chunk@.len() - i,
        {
            self.buf.push(chunk[i]);
            assert(pre + chunk@.take(i + 1) =~= (pre + chunk@.take(i as int)).push(
                chunk@[i as int],
            ));
            i = i + 1;
        }
        assert(chunk@.take(i as int) =~= chunk@);
        let ghost whole = self@;
        let mut more: bool = true;
        while more
            invariant
                self@.drained() == whole.drained(),
                !more ==> self@ == whole.drained(),
            decreases self.buf@.len() + (if more {
                1int
            } else {
                0
            }),
        {
            more = self.next_line();
        }
    }

    /// Takes the first line out, if it has ended, and says whether there may be
    /// more.
    fn next_line(&mut self) -> (r: bool)
        ensures
            final(self)@.drained() == old(self)@.drained(),
            !r ==> final(self)@ == old(self)@.drained(),
            r ==> final(self).buf@.len() < old(self).buf@.len(),
            !r ==> final(self).buf@.len() <= old(self).buf@.len(),
    {
        let mut n: usize = 0;
        while n < self.buf.len() && self.buf[n] != 10
            invariant
                n <= self.buf@.len(),
                *self == *old(self),
                forall|i: int| 0 <= i < n ==> self.buf@[i] != 10,
            decreases self.buf@.len() - n,
        {
            n = n + 1;
        }
        proof {
            line_end_in_range(self.buf@);
        }
        if self.ended || n == self.buf.len() {
            proof {
                if n == self.buf@.len() && line_end(self.buf@) < n {
                    assert(self.buf@[line_end(self.buf@)] == 10);
                }
            }
            return false;
        }
        proof {
            line_end_is(self.buf@, n as int);
        }
        let ghost pre = self@;
        let rest = self.buf.split_off(n + 1);
        let mut line = rest;
        std::mem::swap(&mut self.buf, &mut line);
        let _ = line.pop();
        proof {
            assert(self.buf@ =~= pre.buf.skip(n + 1));
            assert(line@ =~= pre.buf.take(n as int));
        }
        self.take_line(line.as_slice());
        proof {
            let skipped = SseView { buf: pre.buf.skip(n + 1), ..pre };
            let next = skipped.after_line(pre.buf.take(n as int));
            assert(self@ == next);
            assert(pre.drained() == next.drained());
        }
        true
    }
}

} // verus!
