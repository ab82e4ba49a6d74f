//! Rewriting the head of each request that passes through the tunnel: the
//! `Host` field is set to the configured host, `X-Forwarded-For` to the
//! user's address, and everything else is kept.

use bytes::BytesMut;
use crate::buffer::buf_advance;
use crate::buffer::buf_as_slice;
use crate::buffer::buf_contents;
use crate::buffer::buf_extend;
use crate::buffer::buf_len;
use crate::buffer::buf_new;
use crate::decimal::read_decimal;
use crate::decimal::read_number;
use crate::headers::Field;
use crate::headers::Headers;
use crate::headers::as_map;
use crate::headers::distinct_names;
use crate::headers::lemma_put;
use crate::headers::put;
use crate::parser::HeadView;
use crate::parser::ParseError;
use crate::parser::RequestLine;
use crate::parser::lemma_head_length;
use crate::parser::line_bytes;
use crate::parser::parse_head;
use crate::parser::parser_request_head_all;
use crate::scan::crlf;
use vstd::prelude::*;
use vstd::utf8::encode_utf8;

verus! {

/// The head of a request: its first line and its header fields.
#[derive(Debug)]
pub struct RequestHead {
    pub request_line: RequestLine,
    pub headers: Headers,
}

impl View for RequestHead {
    type V = HeadView;

    open spec fn view(&self) -> HeadView {
        HeadView { line: self.request_line@, fields: self.headers@ }
    }
}

/// The bytes of one header field: name, colon, space, value, CRLF.
pub open spec fn field_bytes(f: Field) -> Seq<u8> {
    encode_utf8(f.0) + seq![58u8, 32u8] + encode_utf8(f.1) + crlf()
}

/// The bytes of the header fields, in their order.
pub open spec fn fields_bytes(fields: Seq<Field>) -> Seq<u8>
    decreases fields.len(),
{
    if fields.len() == 0 {
        Seq::empty()
    } else {
        fields_bytes(fields.drop_last()) + field_bytes(fields.last())
    }
}

/// The bytes of a request head: the request line, the header fields and
/// the empty line.
pub open spec fn head_bytes(h: HeadView) -> Seq<u8> {
    line_bytes(h.line) + fields_bytes(h.fields) + crlf()
}

/// The number of body bytes that a head announces: the value of its
/// `Content-Length` field, none where there is no such field. `Err` where
/// the field does not hold a number that fits the machine.
pub open spec fn body_wanted(fields: Seq<Field>) -> Result<nat, ()> {
    if as_map(fields).dom().contains("Content-Length"@) {
        match read_number(encode_utf8(as_map(fields)["Content-Length"@]), usize::MAX as nat) {
            Some(n) => Ok(n),
            None => Err(()),
        }
    } else {
        Ok(0)
    }
}

/// The head as it leaves the tunnel for a user at address `user_ip`.
pub open spec fn rewritten(h: HeadView, user_ip: Seq<char>) -> HeadView {
    HeadView {
        line: h.line,
        fields: put(put(h.fields, "Host"@, "8.0.0.1"@), "X-Forwarded-For"@, user_ip),
    }
}

/// The rewrite sets `Host` and `X-Forwarded-For` and touches nothing else:
/// the request line stays, and every other field keeps its value.
pub proof fn lemma_rewrite_keeps_the_rest(h: HeadView, user_ip: Seq<char>)
    requires
        distinct_names(h.fields),
    ensures
        rewritten(h, user_ip).line == h.line,
        distinct_names(rewritten(h, user_ip).fields),
        as_map(rewritten(h, user_ip).fields) == as_map(h.fields).insert(
            "Host"@,
            "8.0.0.1"@,
        ).insert("X-Forwarded-For"@, user_ip),
        as_map(rewritten(h, user_ip).fields)["X-Forwarded-For"@] == user_ip,
        as_map(rewritten(h, user_ip).fields)["Host"@] == "8.0.0.1"@,
        forall|name: Seq<char>|
            name != "Host"@ && name != "X-Forwarded-For"@ ==> (#[trigger] as_map(
                rewritten(h, user_ip).fields,
            ).dom().contains(name) <==> as_map(h.fields).dom().contains(name)),
        forall|name: Seq<char>|
            name != "Host"@ && name != "X-Forwarded-For"@ && as_map(h.fields).dom().contains(name)
                ==> #[trigger] as_map(rewritten(h, user_ip).fields)[name] == as_map(
                h.fields,
            )[name],
{
    reveal_strlit("Host");
    reveal_strlit("X-Forwarded-For");
    assert("Host"@.len() != "X-Forwarded-For"@.len());
    lemma_put(h.fields, "Host"@, "8.0.0.1"@);
    lemma_put(put(h.fields, "Host"@, "8.0.0.1"@), "X-Forwarded-For"@, user_ip);
}

impl RequestHead {
    /// Sets the field `k` to `v`.
    pub fn change_head(&mut self, k: String, v: String)
        ensures
            final(self)@.line == old(self)@.line,
            final(self)@.fields == put(old(self)@.fields, k@, v@),
            as_map(final(self)@.fields) == as_map(old(self)@.fields).insert(k@, v@),
    {
        self.headers.insert(k, v);
    }

    /// The bytes of the head.
    pub fn build_request_head(&self) -> (out: BytesMut)
        ensures
            buf_contents(out) == head_bytes(self@),
    {
        let mut out = buf_new();
        let line = self.request_line.to_byte();
        buf_extend(&mut out, line.as_slice());
        let sep = vec![58u8, 32u8];
        let end = vec![13u8, 10u8];
        let n: usize = self.headers.len();
        let mut i: usize = 0;
        proof {
            assert(self@.fields.take(0) =~= Seq::<Field>::empty());
            assert(buf_contents(out) =~= line_bytes(self@.line) + fields_bytes(
                self@.fields.take(0),
            ));
        }
        while i < n
            invariant
                n == self@.fields.len(),
                i <= n,
                sep@ == seq![58u8, 32u8],
                end@ == crlf(),
                buf_contents(out) == line_bytes(self@.line) + fields_bytes(
                    self@.fields.take(i as int),
                ),
            decreases n - i,
        {
            let ghost before = buf_contents(out);
            let (name, value) = self.headers.field(i);
            buf_extend(&mut out, name.as_str().as_bytes());
            buf_extend(&mut out, sep.as_slice());
            buf_extend(&mut out, value.as_str().as_bytes());
            buf_extend(&mut out, end.as_slice());
            proof {
                let f = self@.fields[i as int];
                assert(self@.fields.take(i + 1).drop_last() =~= self@.fields.take(i as int));
                assert(self@.fields.take(i + 1).last() == f);
                assert(buf_contents(out) =~= before + field_bytes(f));
                assert(buf_contents(out) =~= line_bytes(self@.line) + fields_bytes(
                    self@.fields.take(i + 1),
                ));
            }
            i += 1;
        }
        buf_extend(&mut out, end.as_slice());
        proof {
            assert(self@.fields.take(n as int) =~= self@.fields);
        }
        out
    }

    /// The value of the `Content-Length` field.
    pub fn get_content_length(&self) -> (r: Option<String>)
        ensures
            match r {
                Some(value) => as_map(self@.fields).dom().contains("Content-Length"@) && value@
                    == as_map(self@.fields)["Content-Length"@],
                None => !as_map(self@.fields).dom().contains("Content-Length"@),
            },
    {
        match self.headers.get("Content-Length") {
            Some(value) => Some(value.clone()),
            None => None,
        }
    }

    /// The number of body bytes that the head announces.
    pub fn content_length(&self) -> (r: Result<usize, ()>)
        ensures
            match body_wanted(self@.fields) {
                Ok(n) => r == Ok::<usize, ()>(n as usize) && n <= usize::MAX,
                Err(_) => r is Err,
            },
    {
        match self.headers.get("Content-Length") {
            Some(value) => match read_decimal(value.as_str().as_bytes(), usize::MAX as u64) {
                Some(n) => Ok(n as usize),
                None => Err(()),
            },
            None => Ok(0),
        }
    }
}

/// What one step of the rewriter came to.
#[derive(Debug)]
pub enum Progress {
    /// The request is not complete yet: read more and step again.
    NeedMore,
    /// One request is complete: these are its bytes, the head rewritten.
    Ready(BytesMut),
    /// What the buffer holds is no request: end the session.
    Failed,
}

/// The state of the rewriter between two steps.
pub struct RewriterView {
    /// The head of the request in progress, once it has been read.
    pub head: Option<HeadView>,
    /// The bytes read and not yet given out.
    pub pending: Seq<u8>,
}

/// What a step does.
pub enum StepView {
    NeedMore(RewriterView),
    Ready(Seq<u8>),
    Failed(RewriterView),
}

/// One step of the rewriter. Without a head it reads one from the pending
/// bytes and takes it off them; pending bytes that hold no whole head yet
/// ask for more, and a head that is malformed fails the step. With the head
/// it waits until the pending bytes are as many as the head announces, and
/// then gives out the rewritten head followed by all the pending bytes.
pub open spec fn step(state: RewriterView, user_ip: Seq<char>) -> StepView {
    let settled: Result<RewriterView, ParseError> = match state.head {
        Some(h) => Ok(state),
        None => match parse_head(state.pending) {
            Ok((h, n)) => Ok(RewriterView { head: Some(h), pending: state.pending.skip(n) }),
            Err(e) => Err(e),
        },
    };
    match settled {
        Err(ParseError::NeedMore) => StepView::NeedMore(state),
        Err(ParseError::Malformed) => StepView::Failed(state),
        Ok(now) => match body_wanted(now.head->0.fields) {
            Err(_) => StepView::Failed(now),
            Ok(want) => if now.pending.len() < want {
                StepView::NeedMore(now)
            } else {
                StepView::Ready(head_bytes(rewritten(now.head->0, user_ip)) + now.pending)
            },
        },
    }
}

/// The rewriter of one session.
#[derive(Debug)]
pub struct HttpTransformer {
    user_ip: String,
    request_head: Option<RequestHead>,
}

impl HttpTransformer {
    /// The address of the user on whose behalf requests are rewritten.
    pub closed spec fn user_ip(&self) -> Seq<char> {
        self.user_ip@
    }

    /// The head of the request in progress.
    pub closed spec fn head(&self) -> Option<HeadView> {
        match self.request_head {
            Some(h) => Some(h@),
            None => None,
        }
    }

    /// A rewriter for the user at `user_ip`, with no request in progress.
    pub fn new(user_ip: String) -> (t: Self)
        ensures
            t.user_ip() == user_ip@,
            t.head() is None,
    {
        HttpTransformer { user_ip, request_head: None }
    }

    /// Reads the head of a request from the start of `buf` and keeps it.
    /// Returns the number of bytes that the head takes; the buffer itself
    /// is not changed.
    pub fn parse_header(&mut self, buf: &BytesMut) -> (r: Result<usize, ParseError>)
        ensures
            final(self).user_ip() == old(self).user_ip(),
            match parse_head(buf_contents(*buf)) {
                Ok((h, n)) => r matches Ok(k) && k == n && n <= buf_contents(*buf).len()
                    && final(self).head() == Some(h),
                Err(e) => r == Err::<usize, ParseError>(e) && final(self).head() == old(
                    self,
                ).head(),
            },
    {
        let input = buf_as_slice(buf);
        proof {
            lemma_head_length(input@);
        }
        match parser_request_head_all(input) {
            Ok((rest, (request_line, headers))) => {
                self.request_head = Some(RequestHead { request_line, headers });
                Ok(input.len() - rest.len())
            },
            Err(e) => Err(e),
        }
    }

    /// Rewrites `request_head` for the user at `user_ip` and returns its bytes.
    pub fn transformer(request_head: &mut RequestHead, user_ip: &str) -> (out: BytesMut)
        ensures
            final(request_head)@ == rewritten(old(request_head)@, user_ip@),
            buf_contents(out) == head_bytes(rewritten(old(request_head)@, user_ip@)),
    {
        request_head.change_head("Host".to_owned(), "8.0.0.1".to_owned());
        request_head.change_head("X-Forwarded-For".to_owned(), user_ip.to_owned());
        request_head.build_request_head()
    }

    /// One step on the bytes read so far. `buf` holds what was read and not
    /// yet given out; bytes that the step takes leave the buffer.
    pub fn feed(&mut self, buf: &mut BytesMut) -> (r: Progress)
        ensures
            final(self).user_ip() == old(self).user_ip(),
            match step(
                RewriterView { head: old(self).head(), pending: buf_contents(*old(buf)) },
                old(self).user_ip(),
            ) {
                StepView::NeedMore(now) => r is NeedMore && final(self).head() == now.head
                    && buf_contents(*final(buf)) == now.pending,
                StepView::Failed(now) => r is Failed && final(self).head() == now.head
                    && buf_contents(*final(buf)) == now.pending,
                StepView::Ready(bytes) => r matches Progress::Ready(out) && buf_contents(out)
                    == bytes && final(self).head() is None && buf_contents(*final(buf))
                    == Seq::<u8>::empty(),
            },
    {
        if self.request_head.is_none() {
            match self.parse_header(buf) {
                Ok(n) => buf_advance(buf, n),
                Err(ParseError::NeedMore) => {
                    return Progress::NeedMore;
                },
                Err(ParseError::Malformed) => {
                    return Progress::Failed;
                },
            }
        }
        let mut head = match self.request_head.take() {
            Some(head) => head,
            None => {
                return Progress::NeedMore;
            },
        };
        let want: usize = match head.content_length() {
            Ok(n) => n,
            Err(_) => {
                self.request_head = Some(head);
                return Progress::Failed;
            },
        };
        let have: usize = buf_len(buf);
        if have < want {
            self.request_head = Some(head);
            return Progress::NeedMore;
        }
        let mut out = HttpTransformer::transformer(&mut head, self.user_ip.as_str());
        buf_extend(&mut out, buf_as_slice(buf));
        buf_advance(buf, have);
        Progress::Ready(out)
    }

    /// Takes what is left in `buf` when the stream has ended: the bytes are
    /// handed on as they are.
    pub fn flush(&self, buf: &mut BytesMut) -> (out: BytesMut)
        ensures
            buf_contents(out) == buf_contents(*old(buf)),
            buf_contents(*final(buf)) == Seq::<u8>::empty(),
    {
        let mut out = buf_new();
        buf_extend(&mut out, buf_as_slice(buf));
        let n: usize = buf_len(buf);
        buf_advance(buf, n);
        out
    }
}

} // verus!
