//! A head that is written reads back as it was.
//!
//! This holds of the heads whose parts hold none of the bytes that separate
//! the parts: no space in method and target, no CRLF in the version, no
//! colon and no CRLF in a field name, no CRLF in a field value. A head that
//! was read from bytes is such a head, and so is what the rewriter makes of
//! it for a user whose address holds no CRLF.

use crate::headers::distinct_names;
use crate::headers::lemma_put;
use crate::headers::lemma_put_all;
use crate::headers::position;
use crate::headers::put;
use crate::headers::put_all;
use crate::headers::Field;
use crate::parser::lemma_field_length;
use crate::parser::line_bytes;
use crate::parser::parse_field;
use crate::parser::parse_fields;
use crate::parser::parse_head;
use crate::parser::parse_line;
use crate::parser::HeadView;
use crate::parser::ParseError;
use crate::parser::RequestLineView;
use crate::scan::absent;
use crate::scan::blank_line;
use crate::scan::colon;
use crate::scan::crlf;
use crate::scan::first_occurrence;
use crate::scan::lemma_absent_part;
use crate::scan::lemma_blank_line_ends;
use crate::scan::lemma_byte_ends;
use crate::scan::lemma_crlf_ends;
use crate::scan::lemma_cut_short;
use crate::scan::lemma_first_is;
use crate::scan::lemma_first_occurrence;
use crate::scan::occurs_at;
use crate::scan::space;
use crate::text::text_or_empty;
use crate::transformer::field_bytes;
use crate::transformer::fields_bytes;
use crate::transformer::head_bytes;
use crate::transformer::rewritten;
use crate::transformer::step;
use crate::transformer::RewriterView;
use vstd::prelude::*;
use vstd::utf8::decode_utf8_encode_utf8;
use vstd::utf8::encode_utf8;
use vstd::utf8::encode_utf8_decode_utf8;
use vstd::utf8::encode_utf8_valid_utf8;
use vstd::utf8::is_ascii_chars;
use vstd::utf8::is_ascii_chars_encode_utf8;
use vstd::utf8::valid_utf8;

verus! {

/// No space in method and target, no CRLF in the version.
pub open spec fn plain_line(line: RequestLineView) -> bool {
    &&& absent(encode_utf8(line.method), space())
    &&& absent(encode_utf8(line.path), space())
    &&& absent(encode_utf8(line.protocol), crlf())
}

/// No colon and no CRLF in the name, no CRLF in the value.
pub open spec fn plain_field(f: Field) -> bool {
    &&& absent(encode_utf8(f.0), colon())
    &&& absent(encode_utf8(f.0), crlf())
    &&& absent(encode_utf8(f.1), crlf())
}

/// Every field is plain.
pub open spec fn plain_fields(fields: Seq<Field>) -> bool {
    forall|i: int| 0 <= i < fields.len() ==> plain_field(#[trigger] fields[i])
}

/// The parts of the head hold no separator, and no name occurs twice. The
/// head may be without fields.
pub open spec fn reads_back(h: HeadView) -> bool {
    &&& plain_line(h.line)
    &&& distinct_names(h.fields)
    &&& plain_fields(h.fields)
}

/// The bytes of a field before the CRLF that ends it.
pub open spec fn field_start(f: Field) -> Seq<u8> {
    encode_utf8(f.0) + seq![58u8, 32u8] + encode_utf8(f.1)
}

/// Text that is written reads back as it was.
pub proof fn lemma_text_reads_back(text: Seq<char>)
    ensures
        text_or_empty(encode_utf8(text)) == text,
{
    encode_utf8_valid_utf8(text);
    encode_utf8_decode_utf8(text);
}

/// A plain request line reads back as it was, whatever follows it.
pub proof fn lemma_line_reads_back(line: RequestLineView, tail: Seq<u8>)
    requires
        plain_line(line),
    ensures
        parse_line(line_bytes(line) + tail) == Ok::<(RequestLineView, int), ParseError>(
            (line, line_bytes(line).len() as int),
        ),
        (line_bytes(line) + tail).skip(line_bytes(line).len() as int) == tail,
{
    reveal(parse_line);
    let m = encode_utf8(line.method);
    let p = encode_utf8(line.path);
    let v = encode_utf8(line.protocol);
    let s = line_bytes(line) + tail;
    let t1 = p + space() + v + crlf() + tail;
    let t2 = v + crlf() + tail;
    assert(s =~= m + seq![32u8] + t1);
    lemma_byte_ends(m, 32u8, t1);
    lemma_first_is(s, space(), m.len() as int);
    let s1 = s.skip(m.len() as int + 1);
    assert(s1 =~= p + seq![32u8] + t2);
    lemma_byte_ends(p, 32u8, t2);
    lemma_first_is(s1, space(), p.len() as int);
    let s2 = s1.skip(p.len() as int + 1);
    assert(s2 =~= v + crlf() + tail);
    lemma_crlf_ends(v, tail);
    lemma_first_is(s2, crlf(), v.len() as int);
    lemma_text_reads_back(line.method);
    lemma_text_reads_back(line.path);
    lemma_text_reads_back(line.protocol);
    assert(s.skip(line_bytes(line).len() as int) =~= tail);
}

/// A request line ends with CRLF.
pub proof fn lemma_line_ends_with_crlf(line: RequestLineView, tail: Seq<u8>)
    ensures
        line_bytes(line).len() >= 4,
        (line_bytes(line) + tail).skip(line_bytes(line).len() - 2) == crlf() + tail,
{
    assert((line_bytes(line) + tail).skip(line_bytes(line).len() - 2) =~= crlf() + tail);
}

/// No CRLF stands in a plain field before the one that ends it.
pub proof fn lemma_field_is_one_line(f: Field)
    requires
        plain_field(f),
    ensures
        absent(field_start(f), crlf()),
        field_start(f).len() >= 2,
        field_bytes(f) == field_start(f) + crlf(),
{
    let k = encode_utf8(f.0);
    let v = encode_utf8(f.1);
    let s = field_start(f);
    let kn = k.len() as int;
    assert(s[kn] == 58 && s[kn + 1] == 32);
    assert forall|j: int| !occurs_at(s, crlf(), j) by {
        if occurs_at(s, crlf(), j) {
            let w = s.subrange(j, j + 2);
            assert(w[0] == 13 && w[1] == 10);
            assert(s[j] == 13 && s[j + 1] == 10);
            if j + 2 <= kn {
                assert(k.subrange(j, j + 2) =~= crlf());
                assert(occurs_at(k, crlf(), j));
            } else if j >= kn + 2 {
                assert(v.subrange(j - kn - 2, j - kn) =~= crlf());
                assert(occurs_at(v, crlf(), j - kn - 2));
            }
        }
    }
    assert(field_bytes(f) =~= s + crlf());
}

/// A plain field reads back as it was, whatever follows it, and it takes
/// exactly the first line of what it stands in.
pub proof fn lemma_field_reads_back(f: Field, tail: Seq<u8>)
    requires
        plain_field(f),
    ensures
        parse_field(field_bytes(f) + tail) == Ok::<(Field, int), ParseError>(
            (f, field_bytes(f).len() as int),
        ),
        first_occurrence(field_bytes(f) + tail, crlf()) == Some(field_bytes(f).len() - 2),
        (field_bytes(f) + tail).skip(field_bytes(f).len() as int) == tail,
{
    reveal(parse_field);
    let k = encode_utf8(f.0);
    let v = encode_utf8(f.1);
    let s = field_bytes(f) + tail;
    let t1 = seq![32u8] + v + crlf() + tail;
    assert(s =~= k + seq![58u8] + t1);
    lemma_byte_ends(k, 58u8, t1);
    lemma_first_is(s, colon(), k.len() as int);
    assert(s[k.len() as int + 1] == 32);
    let s1 = s.skip(k.len() as int + 2);
    assert(s1 =~= v + crlf() + tail);
    lemma_crlf_ends(v, tail);
    lemma_first_is(s1, crlf(), v.len() as int);
    lemma_text_reads_back(f.0);
    lemma_text_reads_back(f.1);
    assert(s.skip(field_bytes(f).len() as int) =~= tail);
    lemma_field_is_one_line(f);
    assert(s =~= field_start(f) + crlf() + tail);
    lemma_crlf_ends(field_start(f), tail);
    lemma_first_is(s, crlf(), field_start(f).len() as int);
}

/// The bytes of the fields are those of the first field and then those of
/// the others.
pub proof fn lemma_fields_from_front(fields: Seq<Field>)
    requires
        fields.len() > 0,
    ensures
        fields_bytes(fields) == field_bytes(fields[0]) + fields_bytes(fields.drop_first()),
    decreases fields.len(),
{
    if fields.len() == 1 {
        assert(fields.drop_last() =~= Seq::<Field>::empty());
        assert(fields.drop_first() =~= Seq::<Field>::empty());
        assert(fields_bytes(fields) =~= field_bytes(fields[0]) + fields_bytes(
            fields.drop_first(),
        ));
    } else {
        let front = fields.drop_last();
        lemma_fields_from_front(front);
        assert(front.drop_first() =~= fields.drop_first().drop_last());
        assert(fields.drop_first().last() == fields.last());
        assert(front[0] == fields[0]);
        assert(fields_bytes(fields) =~= field_bytes(fields[0]) + fields_bytes(
            fields.drop_first(),
        ));
    }
}

/// Plain fields read back as they were.
pub proof fn lemma_fields_read_back(fields: Seq<Field>)
    requires
        plain_fields(fields),
    ensures
        parse_fields(fields_bytes(fields)) == Some(fields),
    decreases fields.len(),
{
    if fields.len() == 0 {
        assert(fields =~= Seq::<Field>::empty());
    } else {
        let rest = fields.drop_first();
        assert(plain_field(fields[0]));
        assert forall|i: int| 0 <= i < rest.len() implies plain_field(#[trigger] rest[i]) by {
            assert(rest[i] == fields[i + 1]);
        }
        lemma_fields_from_front(fields);
        lemma_field_reads_back(fields[0], fields_bytes(rest));
        lemma_field_is_one_line(fields[0]);
        lemma_fields_read_back(rest);
        assert(seq![fields[0]] + rest =~= fields);
    }
}

/// Fields of which no two have the same name are all kept, in their order.
pub proof fn lemma_put_all_distinct(had: Seq<Field>, more: Seq<Field>)
    requires
        distinct_names(had + more),
    ensures
        put_all(had, more) == had + more,
    decreases more.len(),
{
    if more.len() == 0 {
        assert(had + more =~= had);
    } else {
        let all = had + more;
        let name = more[0].0;
        assert(all[had.len() as int] == more[0]);
        if position(had, name) is Some {
            let i = position(had, name)->0;
            assert(all[i] == had[i]);
            assert(all[i].0 != all[had.len() as int].0);
        }
        let next = put(had, name, more[0].1);
        assert(next =~= had.push(more[0]));
        assert(next + more.drop_first() =~= all);
        lemma_put_all_distinct(next, more.drop_first());
    }
}

/// Behind the CRLF of the request line, plain fields make no empty line:
/// neither among themselves nor with that CRLF.
#[verifier::rlimit(30)]
pub proof fn lemma_no_empty_line(fields: Seq<Field>)
    requires
        plain_fields(fields),
    ensures
        absent(crlf() + fields_bytes(fields), blank_line()),
        (crlf() + fields_bytes(fields)).len() >= 2,
        (crlf() + fields_bytes(fields)).skip((crlf() + fields_bytes(fields)).len() - 2) == crlf(),
    decreases fields.len(),
{
    let s = crlf() + fields_bytes(fields);
    if fields.len() == 0 {
        assert(s =~= crlf());
        assert forall|j: int| !occurs_at(s, blank_line(), j) by {}
        assert(s.skip(0) =~= s);
    } else {
        let front = fields.drop_last();
        let f = fields.last();
        let a = crlf() + fields_bytes(front);
        let b = field_bytes(f);
        let o = a.len() as int;
        assert forall|i: int| 0 <= i < front.len() implies plain_field(#[trigger] front[i]) by {
            assert(front[i] == fields[i]);
        }
        lemma_no_empty_line(front);
        assert(plain_field(f));
        lemma_field_is_one_line(f);
        let start = field_start(f);
        let p = start.len() as int;
        assert(s =~= a + b);
        let end = a.skip(o - 2);
        assert(end[0] == 13 && end[1] == 10);
        assert(a[o - 2] == 13 && a[o - 1] == 10);
        assert(b[p] == 13 && b[p + 1] == 10);
        assert forall|j: int| !occurs_at(s, blank_line(), j) by {
            if occurs_at(s, blank_line(), j) {
                let w = s.subrange(j, j + 4);
                assert(w[0] == 13 && w[1] == 10 && w[2] == 13 && w[3] == 10);
                assert(s[j] == 13 && s[j + 1] == 10 && s[j + 2] == 13 && s[j + 3] == 10);
                if j + 4 <= o {
                    assert(a.subrange(j, j + 4) =~= blank_line());
                    assert(occurs_at(a, blank_line(), j));
                } else if j >= o {
                    let i = j - o;
                    assert(b[i] == 13 && b[i + 1] == 10);
                    if i + 2 <= p {
                        assert(start.subrange(i, i + 2) =~= crlf());
                        assert(occurs_at(start, crlf(), i));
                    }
                } else if j == o - 2 {
                    assert(b[0] == 13 && b[1] == 10);
                    assert(start.subrange(0, 2) =~= crlf());
                    assert(occurs_at(start, crlf(), 0));
                } else if j == o - 1 {
                    assert(s[j] == a[o - 1]);
                } else {
                    assert(s[j + 1] == a[o - 2]);
                }
            }
        }
        assert(s.skip(s.len() - 2) =~= crlf());
    }
}

/// A head that is written reads back as it was, whatever follows it: the
/// count of bytes read is the length of what was written, and what follows
/// is left over whole. This holds of a head without fields too.
pub proof fn lemma_head_reads_back(h: HeadView, body: Seq<u8>)
    requires
        reads_back(h),
    ensures
        parse_head(head_bytes(h) + body) == Ok::<(HeadView, int), ParseError>(
            (h, head_bytes(h).len() as int),
        ),
        (head_bytes(h) + body).skip(head_bytes(h).len() as int) == body,
{
    reveal(parse_head);
    let line = line_bytes(h.line);
    let lines = fields_bytes(h.fields);
    let s = head_bytes(h) + body;
    let t = lines + crlf() + body;
    assert(s =~= line + t);
    lemma_line_reads_back(h.line, t);
    lemma_line_ends_with_crlf(h.line, t);
    let n = line.len() as int;
    let from = s.skip(n - 2);
    let guarded = crlf() + lines;
    assert(from =~= guarded + crlf() + body);
    lemma_no_empty_line(h.fields);
    lemma_blank_line_ends(guarded, body);
    let e = guarded.len() - 2;
    lemma_first_is(from, blank_line(), e);
    assert(from.subrange(2, e + 2) =~= lines);
    lemma_fields_read_back(h.fields);
    assert(Seq::<Field>::empty() + h.fields =~= h.fields);
    lemma_put_all_distinct(Seq::empty(), h.fields);
    assert(s.skip(head_bytes(h).len() as int) =~= body);
}

/// The bytes of what some bytes read as are those bytes, or none.
proof fn lemma_text_bytes(b: Seq<u8>)
    ensures
        encode_utf8(text_or_empty(b)) == b || encode_utf8(text_or_empty(b)) == Seq::<u8>::empty(),
{
    if valid_utf8(b) {
        decode_utf8_encode_utf8(b);
    } else {
        assert(encode_utf8(Seq::<char>::empty()) =~= Seq::<u8>::empty());
    }
}

/// Nothing stands in no bytes.
proof fn lemma_absent_in_empty(pat: Seq<u8>)
    requires
        pat.len() > 0,
    ensures
        absent(Seq::<u8>::empty(), pat),
{
    assert forall|j: int| !occurs_at(Seq::<u8>::empty(), pat, j) by {}
}

/// The fields that were read from header lines are plain.
proof fn lemma_parsed_fields(r: Seq<u8>)
    ensures
        parse_fields(r) matches Some(fields) ==> plain_fields(fields),
    decreases r.len(),
{
    reveal(parse_field);
    lemma_field_length(r);
    if r.len() > 0 && parse_fields(r) is Some {
        let f = parse_field(r)->Ok_0.0;
        let n = parse_field(r)->Ok_0.1;
        lemma_first_occurrence(r, colon());
        let a = first_occurrence(r, colon())->0;
        let s1 = r.skip(a + 2);
        lemma_first_occurrence(s1, crlf());
        let b = first_occurrence(s1, crlf())->0;
        let nb = r.take(a);
        let vb = s1.take(b);
        lemma_text_bytes(nb);
        lemma_text_bytes(vb);
        lemma_absent_in_empty(colon());
        lemma_absent_in_empty(crlf());
        lemma_cut_short(r, colon(), a, a);
        lemma_cut_short(s1, crlf(), b, b);
        lemma_first_occurrence(r, crlf());
        lemma_cut_short(r, crlf(), n - 2, n - 2);
        lemma_absent_part(r.take(n - 2), crlf(), 0, a);
        assert(r.take(n - 2).subrange(0, a) =~= nb);
        assert(plain_field(f));
        let rest = r.skip(n);
        lemma_parsed_fields(rest);
        let more = parse_fields(rest)->0;
        let all = parse_fields(r)->0;
        assert(all =~= seq![f] + more);
        assert forall|i: int| 0 <= i < all.len() implies plain_field(#[trigger] all[i]) by {
            if i > 0 {
                assert(all[i] == more[i - 1]);
            }
        }
    }
}

/// Setting a plain field keeps plain fields plain.
proof fn lemma_put_plain(had: Seq<Field>, f: Field)
    requires
        plain_fields(had),
        plain_field(f),
    ensures
        plain_fields(put(had, f.0, f.1)),
{
    let next = put(had, f.0, f.1);
    match position(had, f.0) {
        Some(i) => {
            assert(next =~= had.update(i, f));
            assert forall|j: int| 0 <= j < next.len() implies plain_field(#[trigger] next[j]) by {
                if j != i {
                    assert(next[j] == had[j]);
                }
            }
        },
        None => {
            assert(next =~= had.push(f));
            assert forall|j: int| 0 <= j < next.len() implies plain_field(#[trigger] next[j]) by {
                if j < had.len() {
                    assert(next[j] == had[j]);
                }
            }
        },
    }
}

/// Setting plain fields one after the other keeps plain fields plain.
proof fn lemma_put_all_plain(had: Seq<Field>, more: Seq<Field>)
    requires
        plain_fields(had),
        plain_fields(more),
    ensures
        plain_fields(put_all(had, more)),
    decreases more.len(),
{
    if more.len() > 0 {
        let f = more[0];
        assert(plain_field(f));
        lemma_put_plain(had, f);
        let rest = more.drop_first();
        assert forall|i: int| 0 <= i < rest.len() implies plain_field(#[trigger] rest[i]) by {
            assert(rest[i] == more[i + 1]);
        }
        lemma_put_all_plain(put(had, f.0, f.1), rest);
    }
}

/// The parts of a request line that was read hold no separator.
proof fn lemma_parsed_line_is_plain(s: Seq<u8>)
    ensures
        parse_line(s) matches Ok((line, n)) ==> plain_line(line),
{
    reveal(parse_line);
    lemma_first_occurrence(s, space());
    match first_occurrence(s, space()) {
        Some(a) => {
            let s1 = s.skip(a + 1);
            lemma_first_occurrence(s1, space());
            match first_occurrence(s1, space()) {
                Some(b) => {
                    let s2 = s1.skip(b + 1);
                    lemma_first_occurrence(s2, crlf());
                    match first_occurrence(s2, crlf()) {
                        Some(c) => {
                            lemma_cut_short(s, space(), a, a);
                            lemma_cut_short(s1, space(), b, b);
                            lemma_cut_short(s2, crlf(), c, c);
                            lemma_text_bytes(s.take(a));
                            lemma_text_bytes(s1.take(b));
                            lemma_text_bytes(s2.take(c));
                            lemma_absent_in_empty(space());
                            lemma_absent_in_empty(crlf());
                        },
                        None => {},
                    }
                },
                None => {},
            }
        },
        None => {},
    }
}

/// A head that was read from bytes reads back as it is when it is written.
pub proof fn lemma_parsed_head_reads_back(s: Seq<u8>)
    ensures
        parse_head(s) matches Ok((h, n)) ==> reads_back(h),
{
    reveal(parse_head);
    lemma_parsed_line_is_plain(s);
    match parse_line(s) {
        Ok((line, n)) => {
            let from = s.skip(n - 2);
            match first_occurrence(from, blank_line()) {
                Some(e) => {
                    let lines = from.subrange(2, e + 2);
                    lemma_parsed_fields(lines);
                    if parse_fields(lines) is Some {
                        let none = Seq::<Field>::empty();
                        lemma_put_all_plain(none, parse_fields(lines)->0);
                        lemma_put_all(none, parse_fields(lines)->0);
                    }
                },
                None => {},
            }
        },
        Err(_) => {},
    }
}

/// The two fields that the rewrite sets are plain: for `X-Forwarded-For`
/// this asks that the address holds no CRLF.
proof fn lemma_set_fields_are_plain(user_ip: Seq<char>)
    requires
        absent(encode_utf8(user_ip), crlf()),
    ensures
        plain_field(("Host"@, "8.0.0.1"@)),
        plain_field(("X-Forwarded-For"@, user_ip)),
{
    reveal_strlit("Host");
    reveal_strlit("8.0.0.1");
    reveal_strlit("X-Forwarded-For");
    assert(is_ascii_chars("Host"@));
    assert(is_ascii_chars("8.0.0.1"@));
    assert(is_ascii_chars("X-Forwarded-For"@));
    is_ascii_chars_encode_utf8("Host"@);
    is_ascii_chars_encode_utf8("8.0.0.1"@);
    is_ascii_chars_encode_utf8("X-Forwarded-For"@);
    let host = encode_utf8("Host"@);
    let value = encode_utf8("8.0.0.1"@);
    let xff = encode_utf8("X-Forwarded-For"@);
    assert forall|j: int| !occurs_at(host, colon(), j) by {
        if occurs_at(host, colon(), j) {
            assert(host.subrange(j, j + 1)[0] == host[j]);
        }
    }
    assert forall|j: int| !occurs_at(host, crlf(), j) by {
        if occurs_at(host, crlf(), j) {
            assert(host.subrange(j, j + 2)[0] == host[j]);
        }
    }
    assert forall|j: int| !occurs_at(value, crlf(), j) by {
        if occurs_at(value, crlf(), j) {
            assert(value.subrange(j, j + 2)[0] == value[j]);
        }
    }
    assert forall|j: int| !occurs_at(xff, colon(), j) by {
        if occurs_at(xff, colon(), j) {
            assert(xff.subrange(j, j + 1)[0] == xff[j]);
        }
    }
    assert forall|j: int| !occurs_at(xff, crlf(), j) by {
        if occurs_at(xff, crlf(), j) {
            assert(xff.subrange(j, j + 2)[0] == xff[j]);
        }
    }
}

/// What the rewriter makes of a head that was read from bytes reads back
/// as it is, whatever follows it: the `Host` and `X-Forwarded-For` that
/// were set, the other fields and the request line as they were read. This
/// asks that the user's address holds no CRLF.
pub proof fn lemma_rewritten_reads_back(s: Seq<u8>, user_ip: Seq<char>, body: Seq<u8>)
    requires
        parse_head(s) is Ok,
        absent(encode_utf8(user_ip), crlf()),
    ensures
        ({
            let made = rewritten(parse_head(s)->Ok_0.0, user_ip);
            &&& reads_back(made)
            &&& parse_head(head_bytes(made) + body) == Ok::<(HeadView, int), ParseError>(
                (made, head_bytes(made).len() as int),
            )
            &&& (head_bytes(made) + body).skip(head_bytes(made).len() as int) == body
        }),
{
    let h = parse_head(s)->Ok_0.0;
    let made = rewritten(h, user_ip);
    lemma_parsed_head_reads_back(s);
    lemma_set_fields_are_plain(user_ip);
    let with_host = put(h.fields, "Host"@, "8.0.0.1"@);
    lemma_put(h.fields, "Host"@, "8.0.0.1"@);
    lemma_put_plain(h.fields, ("Host"@, "8.0.0.1"@));
    lemma_put(with_host, "X-Forwarded-For"@, user_ip);
    lemma_put_plain(with_host, ("X-Forwarded-For"@, user_ip));
    lemma_head_reads_back(made, body);
}

/// What the rewriter gives out for a request is that request with `Host`
/// and `X-Forwarded-For` set: read back, its head is the rewritten head of
/// what came in, with the request line and the other fields as they came,
/// and its body is, byte for byte, what followed the head that came in.
/// This asks that the user's address holds no CRLF.
pub proof fn lemma_output_reads_back(pending: Seq<u8>, user_ip: Seq<char>)
    requires
        absent(encode_utf8(user_ip), crlf()),
        step(RewriterView { head: None, pending }, user_ip) is Ready,
    ensures
        parse_head(pending) is Ok,
        ({
            let came = parse_head(pending)->Ok_0;
            let made = rewritten(came.0, user_ip);
            let out = step(RewriterView { head: None, pending }, user_ip)->Ready_0;
            &&& made.line == came.0.line
            &&& parse_head(out) == Ok::<(HeadView, int), ParseError>(
                (made, head_bytes(made).len() as int),
            )
            &&& out.skip(head_bytes(made).len() as int) == pending.skip(came.1)
        }),
{
    let came = parse_head(pending)->Ok_0;
    lemma_rewritten_reads_back(pending, user_ip, pending.skip(came.1));
}

} // verus!
