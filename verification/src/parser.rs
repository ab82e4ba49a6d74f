//! The head of an HTTP/1.x request: the request line and the header fields.
//!
//! The request line is `METHOD SP TARGET SP VERSION CRLF`. A header field is
//! `NAME ": " VALUE CRLF`. The head ends with an empty line.

use crate::headers::Field;
use crate::headers::Headers;
use crate::headers::put_all;
use crate::scan::blank_line;
use crate::scan::colon;
use crate::scan::crlf;
use crate::scan::find;
use crate::scan::first_at;
use crate::scan::first_occurrence;
use crate::scan::lemma_first_occurrence;
use crate::scan::space;
use crate::text::append;
use crate::text::decode_or_empty;
use crate::text::text_or_empty;
use vstd::prelude::*;
use vstd::slice::slice_subrange;
use vstd::utf8::encode_utf8;

verus! {

/// Why a buffer did not yield what was looked for.
#[derive(Debug, Clone, Copy, PartialEq, Eq, Structural)]
pub enum ParseError {
    /// The buffer ends before the item does: read more and try again.
    NeedMore,
    /// The buffer does not start with such an item.
    Malformed,
}

/// The first line of a request.
#[derive(Debug)]
pub struct RequestLine {
    pub method: String,
    pub path: String,
    pub protocol: String,
}

/// A request line as a mathematical value.
pub struct RequestLineView {
    pub method: Seq<char>,
    pub path: Seq<char>,
    pub protocol: Seq<char>,
}

impl View for RequestLine {
    type V = RequestLineView;

    open spec fn view(&self) -> RequestLineView {
        RequestLineView { method: self.method@, path: self.path@, protocol: self.protocol@ }
    }
}

/// A header field: its name and its value.
pub type RequestHeader = (String, String);

/// The bytes of a request line.
pub open spec fn line_bytes(line: RequestLineView) -> Seq<u8> {
    encode_utf8(line.method) + space() + encode_utf8(line.path) + space() + encode_utf8(
        line.protocol,
    ) + crlf()
}

/// What the start of a buffer reads as a request line, together with the
/// number of bytes that the line takes. The method ends at the first space,
/// the target at the next one, the version at the first CRLF behind that.
/// A part that is not well-formed UTF-8 reads as the empty string.
#[verifier::opaque]
pub open spec fn parse_line(s: Seq<u8>) -> Result<(RequestLineView, int), ParseError> {
    match first_occurrence(s, space()) {
        None => Err(ParseError::NeedMore),
        Some(a) => {
            let s1 = s.skip(a + 1);
            match first_occurrence(s1, space()) {
                None => Err(ParseError::NeedMore),
                Some(b) => {
                    let s2 = s1.skip(b + 1);
                    match first_occurrence(s2, crlf()) {
                        None => Err(ParseError::NeedMore),
                        Some(c) => Ok(
                            (
                                RequestLineView {
                                    method: text_or_empty(s.take(a)),
                                    path: text_or_empty(s1.take(b)),
                                    protocol: text_or_empty(s2.take(c)),
                                },
                                a + 1 + b + 1 + c + 2,
                            ),
                        ),
                    }
                },
            }
        },
    }
}

/// What the start of a buffer reads as a header field, together with the
/// number of bytes that the field takes. The name ends at the first colon,
/// which a space must follow; the value ends at the first CRLF behind that.
#[verifier::opaque]
pub open spec fn parse_field(s: Seq<u8>) -> Result<(Field, int), ParseError> {
    match first_occurrence(s, colon()) {
        None => Err(ParseError::NeedMore),
        Some(a) => if s.len() == a + 1 {
            Err(ParseError::NeedMore)
        } else if s[a + 1] != 32 {
            Err(ParseError::Malformed)
        } else {
            let s1 = s.skip(a + 2);
            match first_occurrence(s1, crlf()) {
                None => Err(ParseError::NeedMore),
                Some(b) => Ok(((text_or_empty(s.take(a)), text_or_empty(s1.take(b))), a + 2 + b + 2)),
            }
        },
    }
}

/// The header fields that the lines `s` spell, one field to a line, or
/// `None` where a line is no field: every line has to be a name without
/// CRLF, a colon, a space, a value and CRLF.
pub open spec fn parse_fields(s: Seq<u8>) -> Option<Seq<Field>>
    decreases s.len(),
{
    if s.len() == 0 {
        Some(Seq::empty())
    } else {
        match parse_field(s) {
            Ok((field, n)) => if 0 < n <= s.len() && first_occurrence(s, crlf()) == Some(n - 2) {
                match parse_fields(s.skip(n)) {
                    Some(more) => Some(seq![field] + more),
                    None => None,
                }
            } else {
                None
            },
            Err(_) => None,
        }
    }
}

/// A request head as a mathematical value.
pub struct HeadView {
    pub line: RequestLineView,
    pub fields: Seq<Field>,
}

/// What the start of a buffer reads as a request head, together with the
/// number of bytes that the head takes. The head is the request line, the
/// header lines and the empty line: it ends with the first CRLF CRLF that
/// begins at or behind the CRLF of the request line, so a head may have no
/// field at all. As long as no empty line is there, more bytes are needed;
/// once it is there, a header line that is no field makes the head
/// malformed. Of two fields with one name the later one counts.
#[verifier::opaque]
pub open spec fn parse_head(s: Seq<u8>) -> Result<(HeadView, int), ParseError> {
    match parse_line(s) {
        Err(e) => Err(e),
        Ok((line, n)) => {
            let from = s.skip(n - 2);
            match first_occurrence(from, blank_line()) {
                None => Err(ParseError::NeedMore),
                Some(e) => match parse_fields(from.subrange(2, e + 2)) {
                    None => Err(ParseError::Malformed),
                    Some(fields) => Ok(
                        (HeadView { line, fields: put_all(Seq::empty(), fields) }, n + e + 2),
                    ),
                },
            }
        },
    }
}

/// A request line that was read lies in the buffer.
pub proof fn lemma_line_length(s: Seq<u8>)
    ensures
        parse_line(s) matches Ok((line, n)) ==> 4 <= n <= s.len(),
{
    reveal(parse_line);
    lemma_first_occurrence(s, space());
    match first_occurrence(s, space()) {
        Some(a) => {
            let s1 = s.skip(a + 1);
            lemma_first_occurrence(s1, space());
            match first_occurrence(s1, space()) {
                Some(b) => {
                    lemma_first_occurrence(s1.skip(b + 1), crlf());
                },
                None => {},
            }
        },
        None => {},
    }
}

/// A header field that was read lies in the buffer.
pub proof fn lemma_field_length(s: Seq<u8>)
    ensures
        parse_field(s) matches Ok((field, n)) ==> 4 <= n <= s.len(),
{
    reveal(parse_field);
    lemma_first_occurrence(s, colon());
    match first_occurrence(s, colon()) {
        Some(a) => {
            if s.len() > a + 1 {
                lemma_first_occurrence(s.skip(a + 2), crlf());
            }
        },
        None => {},
    }
}

/// A request head that was read lies in the buffer.
pub proof fn lemma_head_length(s: Seq<u8>)
    ensures
        parse_head(s) matches Ok((head, n)) ==> 6 <= n <= s.len(),
{
    reveal(parse_head);
    lemma_line_length(s);
    match parse_line(s) {
        Ok((line, n)) => {
            lemma_first_occurrence(s.skip(n - 2), blank_line());
        },
        Err(_) => {},
    }
}

impl RequestLine {
    /// The bytes of the line: method, target and version with a space
    /// between them, and CRLF.
    pub fn to_byte(&self) -> (out: Vec<u8>)
        ensures
            out@ == line_bytes(self@),
    {
        let mut out: Vec<u8> = Vec::new();
        append(&mut out, self.method.as_str().as_bytes());
        out.push(32);
        append(&mut out, self.path.as_str().as_bytes());
        out.push(32);
        append(&mut out, self.protocol.as_str().as_bytes());
        out.push(13);
        out.push(10);
        proof {
            assert(out@ =~= line_bytes(self@));
        }
        out
    }
}

/// Reads the request line at the start of `input`, and hands back the input
/// behind it.
pub fn parser_request_line<'a>(input: &'a [u8]) -> (r: Result<(&'a [u8], RequestLine), ParseError>)
    ensures
        match parse_line(input@) {
            Ok((line, n)) => r matches Ok((rest, l)) && l@ == line && rest@ == input@.skip(n),
            Err(e) => r matches Err(err) && err == e,
        },
{
    let sp = vec![32u8];
    let end = vec![13u8, 10u8];
    let n: usize = input.len();
    proof {
        reveal(parse_line);
        assert(sp@ =~= space());
        assert(end@ =~= crlf());
        lemma_first_occurrence(input@, space());
    }
    let a: usize = match find(input, sp.as_slice()) {
        Some(i) => i,
        None => {
            return Err(ParseError::NeedMore);
        },
    };
    proof {
        assert(first_at(input@, space(), a as int));
        assert(space().len() == 1);
    }
    let s1 = slice_subrange(input, a + 1, n);
    proof {
        assert(s1@ =~= input@.skip(a + 1));
        lemma_first_occurrence(s1@, space());
    }
    let b: usize = match find(s1, sp.as_slice()) {
        Some(i) => i,
        None => {
            return Err(ParseError::NeedMore);
        },
    };
    proof {
        assert(first_at(s1@, space(), b as int));
    }
    let s2 = slice_subrange(s1, b + 1, s1.len());
    proof {
        assert(s2@ =~= s1@.skip(b + 1));
        lemma_first_occurrence(s2@, crlf());
    }
    let c: usize = match find(s2, end.as_slice()) {
        Some(i) => i,
        None => {
            return Err(ParseError::NeedMore);
        },
    };
    proof {
        assert(first_at(s2@, crlf(), c as int));
        assert(crlf().len() == 2);
    }
    let line = RequestLine {
        method: decode_or_empty(slice_subrange(input, 0, a)),
        path: decode_or_empty(slice_subrange(s1, 0, b)),
        protocol: decode_or_empty(slice_subrange(s2, 0, c)),
    };
    let rest = slice_subrange(s2, c + 2, s2.len());
    proof {
        assert(rest@ =~= input@.skip(a + 1 + b + 1 + c + 2));
    }
    Ok((rest, line))
}

/// Reads the header field at the start of `input`, and hands back the input
/// behind it.
pub fn parser_request_header<'a>(input: &'a [u8]) -> (r: Result<
    (&'a [u8], RequestHeader),
    ParseError,
>)
    ensures
        match parse_field(input@) {
            Ok((field, n)) => r matches Ok((rest, f)) && f.0@ == field.0 && f.1@ == field.1
                && rest@ == input@.skip(n),
            Err(e) => r matches Err(err) && err == e,
        },
{
    let sep = vec![58u8];
    let end = vec![13u8, 10u8];
    let n: usize = input.len();
    proof {
        reveal(parse_field);
        assert(sep@ =~= colon());
        assert(end@ =~= crlf());
        lemma_first_occurrence(input@, colon());
    }
    let a: usize = match find(input, sep.as_slice()) {
        Some(i) => i,
        None => {
            return Err(ParseError::NeedMore);
        },
    };
    proof {
        assert(first_at(input@, colon(), a as int));
        assert(colon().len() == 1);
    }
    if n == a + 1 {
        return Err(ParseError::NeedMore);
    }
    if input[a + 1] != 32 {
        return Err(ParseError::Malformed);
    }
    let s1 = slice_subrange(input, a + 2, n);
    proof {
        assert(s1@ =~= input@.skip(a + 2));
        lemma_first_occurrence(s1@, crlf());
    }
    let b: usize = match find(s1, end.as_slice()) {
        Some(i) => i,
        None => {
            return Err(ParseError::NeedMore);
        },
    };
    proof {
        assert(first_at(s1@, crlf(), b as int));
        assert(crlf().len() == 2);
    }
    let name = decode_or_empty(slice_subrange(input, 0, a));
    let value = decode_or_empty(slice_subrange(s1, 0, b));
    let rest = slice_subrange(s1, b + 2, s1.len());
    proof {
        assert(rest@ =~= input@.skip(a + 2 + b + 2));
    }
    Ok((rest, (name, value)))
}

/// Reads the header lines `lines` into a fresh set of headers: one field
/// to a line, the later of two fields with one name counting. `None` where
/// a line is no field.
pub fn read_fields(lines: &[u8]) -> (r: Option<Headers>)
    ensures
        match parse_fields(lines@) {
            Some(fields) => r matches Some(headers) && headers@ == put_all(Seq::empty(), fields),
            None => r is None,
        },
{
    let end = vec![13u8, 10u8];
    let mut headers = Headers::new();
    let mut rest: &[u8] = lines;
    proof {
        assert(end@ =~= crlf());
    }
    loop
        invariant
            end@ == crlf(),
            match parse_fields(rest@) {
                Some(more) => parse_fields(lines@) matches Some(all) && put_all(headers@, more)
                    == put_all(Seq::empty(), all),
                None => parse_fields(lines@) is None,
            },
        decreases rest@.len(),
    {
        let ghost before = rest@;
        let have: usize = rest.len();
        if have == 0 {
            return Some(headers);
        }
        proof {
            lemma_field_length(before);
            lemma_first_occurrence(before, crlf());
        }
        match parser_request_header(rest) {
            Ok((next, field)) => {
                let taken: usize = have - next.len();
                match find(rest, end.as_slice()) {
                    Some(at) => {
                        if at + 2 != taken {
                            return None;
                        }
                    },
                    None => {
                        return None;
                    },
                }
                let ghost f: Field = (field.0@, field.1@);
                headers.insert(field.0, field.1);
                rest = next;
                proof {
                    let more = parse_fields(before);
                    if more is Some {
                        assert(more->0.drop_first() =~= parse_fields(rest@)->0);
                        assert(more->0[0] == f);
                    }
                }
            },
            Err(_) => {
                return None;
            },
        }
    }
}

/// Reads the whole head of a request at the start of `input`: the request
/// line and the header fields up to the empty line. Hands back the input
/// behind the empty line.
pub fn parser_request_head_all<'a>(input: &'a [u8]) -> (r: Result<
    (&'a [u8], (RequestLine, Headers)),
    ParseError,
>)
    ensures
        match parse_head(input@) {
            Ok((head, n)) => r matches Ok((rest, parsed)) && parsed.0@ == head.line && parsed.1@
                == head.fields && rest@ == input@.skip(n),
            Err(e) => r matches Err(err) && err == e,
        },
{
    let end = vec![13u8, 10u8, 13u8, 10u8];
    let len: usize = input.len();
    proof {
        reveal(parse_head);
        assert(end@ =~= blank_line());
        lemma_line_length(input@);
    }
    let (s1, line) = match parser_request_line(input) {
        Ok(found) => found,
        Err(e) => {
            return Err(e);
        },
    };
    let n: usize = len - s1.len();
    let from = slice_subrange(input, n - 2, len);
    let m: usize = from.len();
    proof {
        assert(from@ =~= input@.skip(n - 2));
        lemma_first_occurrence(from@, blank_line());
    }
    let e: usize = match find(from, end.as_slice()) {
        Some(i) => i,
        None => {
            return Err(ParseError::NeedMore);
        },
    };
    proof {
        assert(first_at(from@, blank_line(), e as int));
        assert(blank_line().len() == 4);
    }
    let headers = match read_fields(slice_subrange(from, 2, e + 2)) {
        Some(headers) => headers,
        None => {
            return Err(ParseError::Malformed);
        },
    };
    let rest = slice_subrange(from, e + 4, m);
    proof {
        assert(rest@ =~= input@.skip(n + e + 2));
    }
    Ok((rest, (line, headers)))
}

} // verus!
