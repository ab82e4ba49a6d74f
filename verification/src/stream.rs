//! Reading a run of frames from a buffer that grows read by read.

use bytes::BytesMut;
use crate::buffer::buf_advance;
use crate::buffer::buf_as_slice;
use crate::buffer::buf_contents;
use crate::protocol::CodecError;
use crate::protocol::MessageView;
use crate::protocol::RTCPMessage;
use crate::protocol::as_received;
use crate::protocol::decode_frame;
use crate::protocol::encode_frame;
use crate::protocol::frameable;
use crate::protocol::lemma_cut_frame_needs_more;
use crate::protocol::lemma_frame_then_more;
use crate::protocol::lemma_more_bytes_change_nothing;
use crate::scan::crlf;
use crate::scan::first_occurrence;
use crate::scan::lemma_absent_is_none;
use crate::scan::lemma_first_occurrence;
use crate::scan::occurs_at;
use crate::scan::space;
use vstd::prelude::*;

verus! {

/// What a buffer yields when it is read until no further message comes.
pub struct Drained {
    /// The messages read, in the order of their frames.
    pub messages: Seq<MessageView>,
    /// The bytes behind the last frame read.
    pub rest: Seq<u8>,
    /// Why reading stopped.
    pub stop: CodecError,
}

/// Reads frames from the start of `s` until the rest is no frame.
pub open spec fn decode_all(s: Seq<u8>) -> Drained
    decreases s.len(),
{
    match decode_frame(s) {
        Ok((m, n)) => if 0 < n <= s.len() {
            let after = decode_all(s.skip(n));
            Drained { messages: seq![m] + after.messages, rest: after.rest, stop: after.stop }
        } else {
            Drained { messages: Seq::empty(), rest: s, stop: CodecError::Invalid }
        },
        Err(e) => Drained { messages: Seq::empty(), rest: s, stop: e },
    }
}

/// The frames of `ms`, one behind the other.
pub open spec fn encode_frames(ms: Seq<MessageView>) -> Seq<u8>
    decreases ms.len(),
{
    if ms.len() == 0 {
        Seq::empty()
    } else {
        encode_frame(ms[0]) + encode_frames(ms.drop_first())
    }
}

/// Every message of `ms` can be framed.
pub open spec fn all_frameable(ms: Seq<MessageView>) -> bool {
    forall|i: int| 0 <= i < ms.len() ==> frameable(#[trigger] ms[i])
}

/// The messages of `ms` as their receiver sees them.
pub open spec fn all_received(ms: Seq<MessageView>) -> Seq<MessageView> {
    Seq::new(ms.len(), |i: int| as_received(ms[i]))
}

/// The messages of a vector as mathematical values.
pub open spec fn message_views(v: Seq<RTCPMessage>) -> Seq<MessageView> {
    Seq::new(v.len(), |i: int| v[i]@)
}

/// A frame that was read is at least three bytes long and lies in the buffer.
pub proof fn lemma_frame_length(s: Seq<u8>)
    ensures
        decode_frame(s) matches Ok((m, n)) ==> 3 <= n <= s.len(),
{
    reveal(decode_frame);
    lemma_first_occurrence(s, space());
    match first_occurrence(s, space()) {
        Some(sp) => {
            lemma_first_occurrence(s.skip(sp + 1), crlf());
        },
        None => {},
    }
}

/// A run of frames reads as its messages, and nothing is left over.
pub proof fn lemma_read_whole(ms: Seq<MessageView>)
    requires
        all_frameable(ms),
    ensures
        decode_all(encode_frames(ms)) == (Drained {
            messages: all_received(ms),
            rest: Seq::empty(),
            stop: CodecError::NeedMore,
        }),
    decreases ms.len(),
{
    if ms.len() == 0 {
        let s = encode_frames(ms);
        reveal(decode_frame);
        assert forall|j: int| !occurs_at(s, space(), j) by {}
        lemma_absent_is_none(s, space());
        assert(all_received(ms) =~= Seq::<MessageView>::empty());
    } else {
        let head = encode_frame(ms[0]);
        let tail = ms.drop_first();
        let s = encode_frames(ms);
        assert(frameable(ms[0]));
        assert forall|i: int| 0 <= i < tail.len() implies frameable(#[trigger] tail[i]) by {
            assert(tail[i] == ms[i + 1]);
        }
        lemma_frame_then_more(ms[0], encode_frames(tail));
        lemma_read_whole(tail);
        assert(s.skip(head.len() as int) =~= encode_frames(tail));
        assert(all_received(ms) =~= seq![as_received(ms[0])] + all_received(tail));
    }
}

/// However a run of frames is split in two, reading the first part gives
/// some of the messages and asks for more, and reading what it left together
/// with the second part gives the others: all of them, in order, none twice.
pub proof fn lemma_split_stream(ms: Seq<MessageView>, k: int)
    requires
        all_frameable(ms),
        0 <= k <= encode_frames(ms).len(),
    ensures
        ({
            let s = encode_frames(ms);
            let first = decode_all(s.take(k));
            let second = decode_all(first.rest + s.skip(k));
            &&& first.stop == CodecError::NeedMore
            &&& second.stop == CodecError::NeedMore
            &&& second.rest == Seq::<u8>::empty()
            &&& first.messages + second.messages == all_received(ms)
        }),
    decreases ms.len(),
{
    let s = encode_frames(ms);
    if ms.len() == 0 {
        assert(s.take(k) =~= s);
        assert(s + s.skip(k) =~= s);
        lemma_read_whole(ms);
        assert(all_received(ms) + all_received(ms) =~= all_received(ms));
    } else {
        let head = encode_frame(ms[0]);
        let h = head.len() as int;
        let tail = ms.drop_first();
        let t = encode_frames(tail);
        assert(frameable(ms[0]));
        assert forall|i: int| 0 <= i < tail.len() implies frameable(#[trigger] tail[i]) by {
            assert(tail[i] == ms[i + 1]);
        }
        if k < h {
            assert(s.take(k) =~= head.take(k));
            lemma_cut_frame_needs_more(ms[0], k);
            let first = decode_all(s.take(k));
            assert(first.rest + s.skip(k) =~= s);
            lemma_read_whole(ms);
            assert(first.messages + all_received(ms) =~= all_received(ms));
        } else {
            assert(s.take(k) =~= head + t.take(k - h));
            lemma_frame_then_more(ms[0], t.take(k - h));
            assert(s.take(k).skip(h) =~= t.take(k - h));
            assert(s.skip(k) =~= t.skip(k - h));
            lemma_split_stream(tail, k - h);
            let first_tail = decode_all(t.take(k - h));
            let second = decode_all(first_tail.rest + t.skip(k - h));
            assert(all_received(ms) =~= seq![as_received(ms[0])] + all_received(tail));
            assert((seq![as_received(ms[0])] + first_tail.messages) + second.messages =~= seq![
                as_received(ms[0]),
            ] + (first_tail.messages + second.messages));
        }
    }
}

/// The bytes of several reads, one behind the other.
pub open spec fn joined(reads: Seq<Seq<u8>>) -> Seq<u8>
    decreases reads.len(),
{
    if reads.len() == 0 {
        Seq::empty()
    } else {
        reads[0] + joined(reads.drop_first())
    }
}

/// What a buffer yields over several reads: each read is put behind what
/// the buffer still holds, and the frames that are complete then are taken
/// off. Reading ends where what comes next is no message.
pub open spec fn read_in_turns(rest: Seq<u8>, reads: Seq<Seq<u8>>) -> Drained
    decreases reads.len(),
{
    if reads.len() == 0 {
        Drained { messages: Seq::empty(), rest, stop: CodecError::NeedMore }
    } else {
        let now = decode_all(rest + reads[0]);
        if now.stop == CodecError::Invalid {
            now
        } else {
            let later = read_in_turns(now.rest, reads.drop_first());
            Drained { messages: now.messages + later.messages, rest: later.rest, stop: later.stop }
        }
    }
}

/// Reading on where reading stopped for want of bytes gives what reading
/// all the bytes at once gives.
pub proof fn lemma_read_on(a: Seq<u8>, b: Seq<u8>)
    requires
        decode_all(a).stop == CodecError::NeedMore,
    ensures
        decode_all(a + b) == (Drained {
            messages: decode_all(a).messages + decode_all(decode_all(a).rest + b).messages,
            rest: decode_all(decode_all(a).rest + b).rest,
            stop: decode_all(decode_all(a).rest + b).stop,
        }),
    decreases a.len(),
{
    lemma_frame_length(a);
    match decode_frame(a) {
        Ok((m, n)) => {
            lemma_more_bytes_change_nothing(a, b);
            assert((a + b).skip(n) =~= a.skip(n) + b);
            lemma_read_on(a.skip(n), b);
            let tail = decode_all(a.skip(n));
            let on = decode_all(tail.rest + b);
            assert(seq![m] + (tail.messages + on.messages) =~= (seq![m] + tail.messages)
                + on.messages);
        },
        Err(_) => {
            assert(Seq::<MessageView>::empty() + decode_all(a + b).messages =~= decode_all(
                a + b,
            ).messages);
        },
    }
}

/// Where every start of a stream asks for more, reading the stream in
/// turns gives what reading it at once gives.
proof fn lemma_turns(a: Seq<u8>, reads: Seq<Seq<u8>>)
    requires
        forall|k: int|
            0 <= k <= (a + joined(reads)).len() ==> (#[trigger] decode_all(
                (a + joined(reads)).take(k),
            )).stop == CodecError::NeedMore,
    ensures
        ({
            let had = decode_all(a);
            let turns = read_in_turns(had.rest, reads);
            let whole = decode_all(a + joined(reads));
            &&& whole.messages == had.messages + turns.messages
            &&& whole.rest == turns.rest
            &&& turns.stop == CodecError::NeedMore
            &&& whole.stop == CodecError::NeedMore
        }),
    decreases reads.len(),
{
    let all = a + joined(reads);
    let had = decode_all(a);
    assert(all.take(all.len() as int) =~= all);
    assert(decode_all(all.take(all.len() as int)).stop == CodecError::NeedMore);
    if reads.len() == 0 {
        assert(all =~= a);
        assert(had.messages + Seq::<MessageView>::empty() =~= had.messages);
    } else {
        let c = reads[0];
        let tail = reads.drop_first();
        let next = a + c;
        assert(all.take(a.len() as int) =~= a);
        assert(decode_all(all.take(a.len() as int)).stop == CodecError::NeedMore);
        assert(all.take(next.len() as int) =~= next);
        assert(decode_all(all.take(next.len() as int)).stop == CodecError::NeedMore);
        lemma_read_on(a, c);
        let now = decode_all(had.rest + c);
        assert(next + joined(tail) =~= all);
        lemma_turns(next, tail);
        let later = read_in_turns(now.rest, tail);
        assert((had.messages + now.messages) + later.messages =~= had.messages + (now.messages
            + later.messages));
    }
}

/// In however many reads a run of frames arrives and wherever the reads
/// cut it, reading in turns gives every message once, in order, and leaves
/// nothing over.
pub proof fn lemma_any_reads(ms: Seq<MessageView>, reads: Seq<Seq<u8>>)
    requires
        all_frameable(ms),
        joined(reads) == encode_frames(ms),
    ensures
        read_in_turns(Seq::empty(), reads) == (Drained {
            messages: all_received(ms),
            rest: Seq::empty(),
            stop: CodecError::NeedMore,
        }),
{
    let none = Seq::<u8>::empty();
    let all = none + joined(reads);
    assert(all =~= encode_frames(ms));
    assert forall|k: int| 0 <= k <= all.len() implies (#[trigger] decode_all(all.take(k))).stop
        == CodecError::NeedMore by {
        lemma_split_stream(ms, k);
    }
    lemma_turns(none, reads);
    lemma_read_whole(ms);
    lemma_split_stream(ms, 0);
    assert(all.take(0) =~= none);
    let had = decode_all(none);
    lemma_frame_length(none);
    assert(had.messages =~= Seq::<MessageView>::empty());
    assert(had.rest =~= none);
    let turns = read_in_turns(none, reads);
    assert(had.messages + turns.messages =~= turns.messages);
}

/// The messages read from a buffer, and why reading stopped.
#[derive(Debug)]
pub struct FrameBatch {
    /// The messages, in the order of their frames.
    pub messages: Vec<RTCPMessage>,
    /// `NeedMore` when the buffer ran out, `Invalid` when what came next was
    /// no message.
    pub stop: CodecError,
}

/// Reads every complete frame from the start of `buf` and removes it from
/// the buffer. What stays in the buffer is the start of the next frame.
pub fn read_frames(buf: &mut BytesMut) -> (batch: FrameBatch)
    ensures
        message_views(batch.messages@) == decode_all(buf_contents(*old(buf))).messages,
        batch.stop == decode_all(buf_contents(*old(buf))).stop,
        buf_contents(*final(buf)) == decode_all(buf_contents(*old(buf))).rest,
{
    let mut messages: Vec<RTCPMessage> = Vec::new();
    loop
        invariant
            decode_all(buf_contents(*old(buf))).messages == message_views(messages@) + decode_all(
                buf_contents(*buf),
            ).messages,
            decode_all(buf_contents(*old(buf))).rest == decode_all(buf_contents(*buf)).rest,
            decode_all(buf_contents(*old(buf))).stop == decode_all(buf_contents(*buf)).stop,
        decreases buf_contents(*buf).len(),
    {
        let ghost before = buf_contents(*buf);
        let ghost read = message_views(messages@);
        proof {
            lemma_frame_length(before);
        }
        match RTCPMessage::deserialize(buf_as_slice(buf)) {
            Ok((message, n)) => {
                messages.push(message);
                buf_advance(buf, n);
                proof {
                    assert(message_views(messages@) =~= read + seq![message@]);
                    assert((read + seq![message@]) + decode_all(before.skip(n as int)).messages
                        =~= read + (seq![message@] + decode_all(before.skip(n as int)).messages));
                }
            },
            Err(stop) => {
                proof {
                    assert(message_views(messages@) + Seq::<MessageView>::empty()
                        =~= message_views(messages@));
                }
                return FrameBatch { messages, stop };
            },
        }
    }
}

} // verus!
