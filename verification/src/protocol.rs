//! The control protocol: messages and their wire format.
//!
//! One message on the wire is a type token, one space, a connection id that
//! may be empty, and CRLF. The type token is `initialize:` followed by a port
//! in decimal, or one of `new_connection`, `heartbeat`, `close_connection`.

use bytes::Bytes;
use crate::buffer::bytes_contents;
use crate::buffer::bytes_from_slice;
use crate::decimal::decimal_digits;
use crate::decimal::is_digit;
use crate::decimal::lemma_digits_value;
use crate::decimal::push_decimal;
use crate::decimal::read_decimal;
use crate::decimal::read_number;
use crate::ids::hyphenated;
use crate::ids::lemma_hyphenated_chars;
use crate::ids::random_uuid;
use crate::ids::uuid_text;
use crate::scan::absent;
use crate::scan::crlf;
use crate::scan::find;
use crate::scan::first_at;
use crate::scan::first_occurrence;
use crate::scan::lemma_absent_is_none;
use crate::scan::lemma_crlf_ends;
use crate::scan::lemma_cut_short;
use crate::scan::lemma_first_in_prefix;
use crate::scan::lemma_first_is;
use crate::scan::lemma_first_occurrence;
use crate::scan::lemma_first_stable;
use crate::scan::occurs_at;
use crate::scan::space;
use crate::text::append;
use crate::text::lemma_ascii_is_utf8;
use crate::text::same_bytes;
use crate::text::string_from_utf8;
use vstd::prelude::*;
use vstd::slice::slice_subrange;
use vstd::slice::slice_to_vec;
use vstd::string::StringSliceAdditionalSpecFns;
use vstd::utf8::decode_utf8;
use vstd::utf8::decode_utf8_encode_utf8;
use vstd::utf8::encode_utf8;
use vstd::utf8::encode_utf8_decode_utf8;
use vstd::utf8::encode_utf8_valid_utf8;
use vstd::utf8::is_ascii_chars;
use vstd::utf8::is_ascii_chars_encode_utf8;
use vstd::utf8::valid_utf8;
use vstd::utf8::valid_utf8_concat;

verus! {

/// The id that ties a message to one tunnelled connection.
pub type ConnectId = Option<String>;

/// Why a buffer did not yield a message.
#[derive(Debug, Clone, Copy, PartialEq, Eq, Structural)]
pub enum CodecError {
    /// The buffer holds no complete frame yet: read more and try again.
    NeedMore,
    /// The buffer starts with a complete frame that is no message.
    Invalid,
}

/// The kinds of control message.
#[derive(Debug, Clone, Copy, PartialEq, Eq, Structural)]
pub enum RTCPType {
    /// Client to server, first on a control channel: open this access port.
    Initialize(u16),
    /// Server to client: a user arrived and no data socket was waiting.
    NewConnection,
    /// Client to server: the control channel is alive.
    Heartbeat,
    /// Reserved: read and ignored.
    CloseConnection,
}

/// The bytes of `initialize:`.
pub open spec fn initialize_prefix() -> Seq<u8> {
    encode_utf8("initialize:"@)
}

/// The type token of a kind of message.
pub open spec fn kind_token(kind: RTCPType) -> Seq<u8> {
    match kind {
        RTCPType::Initialize(port) => initialize_prefix() + decimal_digits(port as nat),
        RTCPType::NewConnection => encode_utf8("new_connection"@),
        RTCPType::Heartbeat => encode_utf8("heartbeat"@),
        RTCPType::CloseConnection => encode_utf8("close_connection"@),
    }
}

/// The kind that a type token names, if it names one.
pub open spec fn token_kind(token: Seq<u8>) -> Option<RTCPType> {
    if token == encode_utf8("new_connection"@) {
        Some(RTCPType::NewConnection)
    } else if token == encode_utf8("heartbeat"@) {
        Some(RTCPType::Heartbeat)
    } else if token == encode_utf8("close_connection"@) {
        Some(RTCPType::CloseConnection)
    } else if occurs_at(token, initialize_prefix(), 0) {
        match read_number(token.skip(initialize_prefix().len() as int), 65535) {
            Some(port) => Some(RTCPType::Initialize(port as u16)),
            None => None,
        }
    } else {
        None
    }
}

/// The keywords of the protocol, byte by byte.
pub proof fn lemma_keywords()
    ensures
        initialize_prefix() == seq![105u8, 110, 105, 116, 105, 97, 108, 105, 122, 101, 58],
        encode_utf8("new_connection"@) == seq![110u8, 101, 119, 95, 99, 111, 110, 110, 101, 99, 116, 105, 111, 110],
        encode_utf8("heartbeat"@) == seq![104u8, 101, 97, 114, 116, 98, 101, 97, 116],
        encode_utf8("close_connection"@) == seq![99u8, 108, 111, 115, 101, 95, 99, 111, 110, 110, 101, 99, 116, 105, 111, 110],
{
    reveal_strlit("initialize:");
    reveal_strlit("new_connection");
    reveal_strlit("heartbeat");
    reveal_strlit("close_connection");
    assert(is_ascii_chars("initialize:"@));
    assert(is_ascii_chars("new_connection"@));
    assert(is_ascii_chars("heartbeat"@));
    assert(is_ascii_chars("close_connection"@));
    is_ascii_chars_encode_utf8("initialize:"@);
    is_ascii_chars_encode_utf8("new_connection"@);
    is_ascii_chars_encode_utf8("heartbeat"@);
    is_ascii_chars_encode_utf8("close_connection"@);
    assert(initialize_prefix() =~= seq![105u8, 110, 105, 116, 105, 97, 108, 105, 122, 101, 58]);
    assert(encode_utf8("new_connection"@) =~= seq![110u8, 101, 119, 95, 99, 111, 110, 110, 101, 99, 116, 105, 111, 110]);
    assert(encode_utf8("heartbeat"@) =~= seq![104u8, 101, 97, 114, 116, 98, 101, 97, 116]);
    assert(encode_utf8("close_connection"@) =~= seq![99u8, 108, 111, 115, 101, 95, 99, 111, 110, 110, 101, 99, 116, 105, 111, 110]);
}

/// A token names the kind that it was written for.
pub proof fn lemma_token_names_its_kind(kind: RTCPType)
    ensures
        token_kind(kind_token(kind)) == Some(kind),
{
    lemma_keywords();
    match kind {
        RTCPType::Initialize(port) => {
            let digits = decimal_digits(port as nat);
            let token = kind_token(kind);
            lemma_digits_value(port as nat);
            assert(token.len() == 11 + digits.len());
            assert(token[10] == 58);
            assert(token.subrange(0, 11) =~= initialize_prefix());
            assert(token.skip(11) =~= digits);
        },
        RTCPType::NewConnection => {},
        RTCPType::Heartbeat => {},
        RTCPType::CloseConnection => {
            assert(kind_token(kind)[0] == 99);
        },
    }
}

/// A type token is well-formed text.
pub proof fn lemma_token_is_text(kind: RTCPType)
    ensures
        valid_utf8(kind_token(kind)),
{
    match kind {
        RTCPType::Initialize(port) => {
            let digits = decimal_digits(port as nat);
            lemma_digits_value(port as nat);
            assert forall|i: int| 0 <= i < digits.len() implies #[trigger] digits[i] < 128 by {
                assert(is_digit(digits[i]));
            }
            lemma_ascii_is_utf8(digits);
            encode_utf8_valid_utf8("initialize:"@);
            valid_utf8_concat(initialize_prefix(), digits);
        },
        RTCPType::NewConnection => {
            encode_utf8_valid_utf8("new_connection"@);
        },
        RTCPType::Heartbeat => {
            encode_utf8_valid_utf8("heartbeat"@);
        },
        RTCPType::CloseConnection => {
            encode_utf8_valid_utf8("close_connection"@);
        },
    }
}

impl RTCPType {
    /// Reads a type token.
    pub fn new_from_str(s: &str) -> (r: Result<RTCPType, CodecError>)
        ensures
            match token_kind(s.spec_bytes()) {
                Some(kind) => r == Ok::<RTCPType, CodecError>(kind),
                None => r == Err::<RTCPType, CodecError>(CodecError::Invalid),
            },
    {
        match RTCPType::from_token(s.as_bytes()) {
            Some(kind) => Ok(kind),
            None => Err(CodecError::Invalid),
        }
    }

    /// Reads a type token from its bytes.
    pub fn from_token(token: &[u8]) -> (r: Option<RTCPType>)
        ensures
            r == token_kind(token@),
    {
        if same_bytes(token, "new_connection".as_bytes()) {
            return Some(RTCPType::NewConnection);
        }
        if same_bytes(token, "heartbeat".as_bytes()) {
            return Some(RTCPType::Heartbeat);
        }
        if same_bytes(token, "close_connection".as_bytes()) {
            return Some(RTCPType::CloseConnection);
        }
        let prefix = "initialize:".as_bytes();
        let n: usize = token.len();
        let p: usize = prefix.len();
        if n < p {
            return None;
        }
        if !same_bytes(slice_subrange(token, 0, p), prefix) {
            return None;
        }
        match read_decimal(slice_subrange(token, p, n), 65535) {
            Some(port) => Some(RTCPType::Initialize(port as u16)),
            None => None,
        }
    }

    /// The type token as a string.
    pub fn to_string(&self) -> (s: String)
        ensures
            encode_utf8(s@) == kind_token(*self),
    {
        let mut token: Vec<u8> = Vec::new();
        self.write_token(&mut token);
        proof {
            assert(token@ =~= kind_token(*self));
            lemma_token_is_text(*self);
            decode_utf8_encode_utf8(token@);
        }
        match string_from_utf8(token) {
            Some(s) => s,
            None => String::new(),
        }
    }

    /// Appends the type token to `out`.
    pub fn write_token(&self, out: &mut Vec<u8>)
        ensures
            final(out)@ == old(out)@ + kind_token(*self),
    {
        match self {
            RTCPType::Initialize(port) => {
                append(out, "initialize:".as_bytes());
                push_decimal(out, *port as u64);
                proof {
                    assert(final(out)@ =~= old(out)@ + kind_token(*self));
                }
            },
            RTCPType::NewConnection => append(out, "new_connection".as_bytes()),
            RTCPType::Heartbeat => append(out, "heartbeat".as_bytes()),
            RTCPType::CloseConnection => append(out, "close_connection".as_bytes()),
        }
    }
}

/// One control message.
#[derive(Debug)]
pub struct RTCPMessage {
    /// What the message says.
    pub message_type: RTCPType,
    /// The connection that it speaks of, if any.
    pub connect_id: ConnectId,
}

/// A control message as a mathematical value.
pub struct MessageView {
    pub message_type: RTCPType,
    pub connect_id: Option<Seq<char>>,
}

impl View for RTCPMessage {
    type V = MessageView;

    open spec fn view(&self) -> MessageView {
        MessageView {
            message_type: self.message_type,
            connect_id: match self.connect_id {
                Some(id) => Some(id@),
                None => None,
            },
        }
    }
}

/// The bytes of a connection id on the wire: none where there is no id.
pub open spec fn id_bytes(id: Option<Seq<char>>) -> Seq<u8> {
    match id {
        Some(text) => encode_utf8(text),
        None => Seq::empty(),
    }
}

/// The frame of a message: type token, space, id or nothing, CRLF.
pub open spec fn encode_frame(m: MessageView) -> Seq<u8> {
    kind_token(m.message_type) + space() + id_bytes(m.connect_id) + crlf()
}

/// What the start of a buffer reads as: a message with the number of bytes
/// of its frame, or the reason why there is none. The type token ends at the
/// first space, the id at the first CRLF behind that space.
#[verifier::opaque]
pub open spec fn decode_frame(s: Seq<u8>) -> Result<(MessageView, int), CodecError> {
    match first_occurrence(s, space()) {
        None => Err(CodecError::NeedMore),
        Some(sp) => {
            let rest = s.skip(sp + 1);
            match first_occurrence(rest, crlf()) {
                None => Err(CodecError::NeedMore),
                Some(nl) => {
                    let id = rest.take(nl);
                    match token_kind(s.take(sp)) {
                        None => Err(CodecError::Invalid),
                        Some(kind) => if valid_utf8(id) {
                            Ok(
                                (
                                    MessageView {
                                        message_type: kind,
                                        connect_id: if id.len() == 0 {
                                            None
                                        } else {
                                            Some(decode_utf8(id))
                                        },
                                    },
                                    sp + 1 + nl + 2,
                                ),
                            )
                        } else {
                            Err(CodecError::Invalid)
                        },
                    }
                },
            }
        },
    }
}

/// A message can be framed when its id holds no CRLF.
pub open spec fn frameable(m: MessageView) -> bool {
    absent(id_bytes(m.connect_id), crlf())
}

/// The message as its receiver sees it: an empty id is no id.
pub open spec fn as_received(m: MessageView) -> MessageView {
    MessageView {
        message_type: m.message_type,
        connect_id: if id_bytes(m.connect_id).len() == 0 {
            None
        } else {
            m.connect_id
        },
    }
}

/// No type token holds a space.
pub proof fn lemma_token_has_no_space(kind: RTCPType)
    ensures
        forall|i: int| 0 <= i < kind_token(kind).len() ==> #[trigger] kind_token(kind)[i] != 32,
{
    lemma_keywords();
    match kind {
        RTCPType::Initialize(port) => {
            lemma_digits_value(port as nat);
            let digits = decimal_digits(port as nat);
            assert forall|i: int| 0 <= i < kind_token(kind).len() implies #[trigger] kind_token(
                kind,
            )[i] != 32 by {
                if i >= 11 {
                    assert(kind_token(kind)[i] == digits[i - 11]);
                    assert(is_digit(digits[i - 11]));
                }
            }
        },
        _ => {},
    }
}

/// In a frame the first space stands right behind the type token.
proof fn lemma_token_end(m: MessageView, tail: Seq<u8>)
    ensures
        first_at(encode_frame(m) + tail, space(), kind_token(m.message_type).len() as int),
        (encode_frame(m) + tail).take(kind_token(m.message_type).len() as int) == kind_token(
            m.message_type,
        ),
        (encode_frame(m) + tail).skip(kind_token(m.message_type).len() as int + 1) == id_bytes(
            m.connect_id,
        ) + crlf() + tail,
{
    let token = kind_token(m.message_type);
    let s = encode_frame(m) + tail;
    let t = token.len() as int;
    lemma_token_has_no_space(m.message_type);
    assert(s.subrange(t, t + 1) =~= space());
    assert forall|j: int| 0 <= j < t implies !occurs_at(s, space(), j) by {
        assert(s.subrange(j, j + 1)[0] == token[j]);
    }
    assert(s.take(t) =~= token);
    assert(s.skip(t + 1) =~= id_bytes(m.connect_id) + crlf() + tail);
}

/// A frame reads as its message, whatever follows it, and the count of bytes
/// read is the length of the frame.
pub proof fn lemma_frame_then_more(m: MessageView, tail: Seq<u8>)
    requires
        frameable(m),
    ensures
        decode_frame(encode_frame(m) + tail) == Ok::<(MessageView, int), CodecError>(
            (as_received(m), encode_frame(m).len() as int),
        ),
{
    reveal(decode_frame);
    let s = encode_frame(m) + tail;
    let t = kind_token(m.message_type).len() as int;
    let id = id_bytes(m.connect_id);
    lemma_token_end(m, tail);
    lemma_first_is(s, space(), t);
    lemma_crlf_ends(id, tail);
    lemma_first_is(s.skip(t + 1), crlf(), id.len() as int);
    lemma_token_names_its_kind(m.message_type);
    match m.connect_id {
        Some(text) => {
            encode_utf8_valid_utf8(text);
            encode_utf8_decode_utf8(text);
        },
        None => {},
    }
}

/// Reading what was written gives the message back, and takes every byte.
pub proof fn lemma_round_trip(m: MessageView)
    requires
        frameable(m),
    ensures
        decode_frame(encode_frame(m)) == Ok::<(MessageView, int), CodecError>(
            (as_received(m), encode_frame(m).len() as int),
        ),
{
    lemma_frame_then_more(m, Seq::empty());
    assert(encode_frame(m) + Seq::<u8>::empty() =~= encode_frame(m));
}

/// A message that was read stays read when more bytes arrive: the same
/// message, of the same length.
pub proof fn lemma_more_bytes_change_nothing(s: Seq<u8>, more: Seq<u8>)
    requires
        decode_frame(s) is Ok,
    ensures
        decode_frame(s + more) == decode_frame(s),
{
    reveal(decode_frame);
    lemma_first_occurrence(s, space());
    let sp = first_occurrence(s, space())->0;
    lemma_first_stable(s, more, space(), sp);
    lemma_first_is(s + more, space(), sp);
    let rest = s.skip(sp + 1);
    lemma_first_occurrence(rest, crlf());
    let nl = first_occurrence(rest, crlf())->0;
    lemma_first_stable(rest, more, crlf(), nl);
    assert((s + more).skip(sp + 1) =~= rest + more);
    lemma_first_is(rest + more, crlf(), nl);
    assert((s + more).take(sp) =~= s.take(sp));
    assert((rest + more).take(nl) =~= rest.take(nl));
}

/// A frame that is cut short reads as nothing yet: more bytes are needed.
pub proof fn lemma_cut_frame_needs_more(m: MessageView, k: int)
    requires
        frameable(m),
        0 <= k < encode_frame(m).len(),
    ensures
        decode_frame(encode_frame(m).take(k)) == Err::<(MessageView, int), CodecError>(
            CodecError::NeedMore,
        ),
{
    reveal(decode_frame);
    let s = encode_frame(m);
    let t = kind_token(m.message_type).len() as int;
    let id = id_bytes(m.connect_id);
    lemma_token_end(m, Seq::empty());
    assert(s + Seq::<u8>::empty() =~= s);
    if k <= t {
        lemma_cut_short(s, space(), t, k);
        lemma_absent_is_none(s.take(k), space());
    } else {
        lemma_first_in_prefix(s, space(), t, k);
        lemma_first_is(s.take(k), space(), t);
        lemma_crlf_ends(id, Seq::empty());
        let rest = id + crlf() + Seq::<u8>::empty();
        assert(s.take(k).skip(t + 1) =~= rest.take(k - t - 1));
        lemma_cut_short(rest, crlf(), id.len() as int, k - t - 1);
        lemma_absent_is_none(rest.take(k - t - 1), crlf());
    }
}

/// The message that `RTCPMessage::new` makes when the random identifier is
/// `uuid`: only a new connection gets an id.
pub open spec fn message_with_uuid(message_type: RTCPType, uuid: u128) -> MessageView {
    MessageView {
        message_type,
        connect_id: match message_type {
            RTCPType::NewConnection => Some(hyphenated(uuid)),
            _ => None,
        },
    }
}

/// Whatever the random identifier is, the message that `RTCPMessage::new`
/// makes can be framed, and its frame reads back as the same message, of
/// the same kind and with the same port, and takes every byte.
pub proof fn lemma_new_round_trip(message_type: RTCPType, uuid: u128)
    ensures
        frameable(message_with_uuid(message_type, uuid)),
        decode_frame(encode_frame(message_with_uuid(message_type, uuid))) == Ok::<
            (MessageView, int),
            CodecError,
        >(
            (
                message_with_uuid(message_type, uuid),
                encode_frame(message_with_uuid(message_type, uuid)).len() as int,
            ),
        ),
{
    let m = message_with_uuid(message_type, uuid);
    let bytes = id_bytes(m.connect_id);
    match m.connect_id {
        Some(id) => {
            lemma_hyphenated_chars(uuid);
            assert(is_ascii_chars(id)) by {
                assert forall|i: int| 0 <= i < id.len() implies '\0' <= #[trigger] id[i]
                    <= '\u{7f}' by {
                    let c = hyphenated(uuid)[i];
                    assert(c == '-' || ('0' <= c <= '9') || ('a' <= c <= 'f'));
                }
            }
            is_ascii_chars_encode_utf8(id);
            assert(bytes.len() == 36);
            assert forall|j: int| !occurs_at(bytes, crlf(), j) by {
                if occurs_at(bytes, crlf(), j) {
                    let c = hyphenated(uuid)[j];
                    assert(c == '-' || ('0' <= c <= '9') || ('a' <= c <= 'f'));
                    assert(bytes.subrange(j, j + 2)[0] == bytes[j]);
                    assert(bytes[j] == id[j] as u8);
                }
            }
        },
        None => {
            assert forall|j: int| !occurs_at(bytes, crlf(), j) by {}
        },
    }
    lemma_round_trip(m);
    assert(as_received(m) == m);
}

impl RTCPMessage {
    /// A message of the given kind. A new connection gets a fresh random id,
    /// every other kind none.
    pub fn new(message_type: RTCPType) -> (m: Self)
        ensures
            exists|uuid: u128| m@ == message_with_uuid(message_type, uuid),
    {
        let uuid: u128 = random_uuid();
        let m = RTCPMessage::with_uuid(message_type, uuid);
        proof {
            assert(m@ == message_with_uuid(message_type, uuid));
        }
        m
    }

    /// The message of the given kind whose id, if it gets one, is `uuid` in
    /// its text form.
    pub fn with_uuid(message_type: RTCPType, uuid: u128) -> (m: Self)
        ensures
            m@ == message_with_uuid(message_type, uuid),
    {
        let connect_id = match message_type {
            RTCPType::NewConnection => Some(uuid_text(uuid)),
            _ => None,
        };
        RTCPMessage { message_type, connect_id }
    }

    /// The frame of this message as a vector.
    pub fn to_frame(&self) -> (out: Vec<u8>)
        ensures
            out@ == encode_frame(self@),
    {
        let mut out: Vec<u8> = Vec::new();
        self.message_type.write_token(&mut out);
        out.push(32);
        match &self.connect_id {
            Some(id) => append(&mut out, id.as_str().as_bytes()),
            None => {},
        }
        out.push(13);
        out.push(10);
        proof {
            assert(out@ =~= encode_frame(self@));
        }
        out
    }

    /// The frame of this message.
    pub fn serialize(&self) -> (out: Bytes)
        ensures
            bytes_contents(out) == encode_frame(self@),
    {
        let frame = self.to_frame();
        bytes_from_slice(frame.as_slice())
    }

    /// Reads one message from the start of `input`, and says how many bytes
    /// its frame took.
    pub fn deserialize(input: &[u8]) -> (r: Result<(RTCPMessage, usize), CodecError>)
        ensures
            match decode_frame(input@) {
                Ok((m, n)) => r matches Ok((msg, len)) && msg@ == m && len == n,
                Err(e) => r matches Err(err) && err == e,
            },
    {
        let sep = vec![32u8];
        let end = vec![13u8, 10u8];
        proof {
            reveal(decode_frame);
            assert(sep@ =~= space());
            assert(end@ =~= crlf());
            lemma_first_occurrence(input@, space());
        }
        let sp: usize = match find(input, sep.as_slice()) {
            Some(i) => i,
            None => {
                return Err(CodecError::NeedMore);
            },
        };
        let n: usize = input.len();
        proof {
            assert(first_at(input@, space(), sp as int));
            assert(space().len() == 1);
        }
        let rest = slice_subrange(input, sp + 1, n);
        proof {
            assert(rest@ =~= input@.skip(sp + 1));
            lemma_first_occurrence(rest@, crlf());
        }
        let nl: usize = match find(rest, end.as_slice()) {
            Some(i) => i,
            None => {
                return Err(CodecError::NeedMore);
            },
        };
        proof {
            assert(first_at(rest@, crlf(), nl as int));
            assert(crlf().len() == 2);
        }
        let token = slice_subrange(input, 0, sp);
        let id = slice_subrange(rest, 0, nl);
        let message_type = match RTCPType::from_token(token) {
            Some(kind) => kind,
            None => {
                return Err(CodecError::Invalid);
            },
        };
        let text = match string_from_utf8(slice_to_vec(id)) {
            Some(text) => text,
            None => {
                return Err(CodecError::Invalid);
            },
        };
        let connect_id = if nl == 0 {
            None
        } else {
            Some(text)
        };
        Ok((RTCPMessage { message_type, connect_id }, sp + 1 + nl + 2))
    }

    /// The length of the type token and of the id together.
    pub fn get_size(&self) -> (n: usize)
        ensures
            n == kind_token(self.message_type).len() + id_bytes(self@.connect_id).len(),
    {
        let frame = self.to_frame();
        frame.len() - 3
    }
}

} // verus!
