use nom::bytes::streaming::tag;
use nom::bytes::streaming::take_until;
use nom::sequence::terminated;
use nom::sequence::tuple;
use nom::IResult;
use nom::Parser;
use rtcp::parser::parser_request_head_all;
use rtcp::parser::parser_request_header;
use rtcp::parser::parser_request_line;
use rtcp::parser::ParseError;
use rtcp::protocol::CodecError;
use rtcp::protocol::RTCPMessage;

type Parts<'a> = Vec<&'a [u8]>;

fn outcome<'a>(r: IResult<&'a [u8], Parts<'a>>) -> Result<(&'a [u8], Vec<String>), ParseError> {
    match r {
        Ok((rest, parts)) => Ok((
            rest,
            parts
                .into_iter()
                .map(|p| String::from_utf8(p.to_vec()).unwrap_or_default())
                .collect(),
        )),
        Err(nom::Err::Incomplete(_)) => Err(ParseError::NeedMore),
        Err(_) => Err(ParseError::Malformed),
    }
}

fn nom_line(input: &[u8]) -> IResult<&[u8], Parts<'_>> {
    let (rest, (method, _, path, _, protocol)) = tuple((
        take_until(" "),
        tag(" "),
        take_until(" "),
        tag(" "),
        terminated(take_until("\r\n"), tag("\r\n")),
    ))
    .parse(input)?;
    Ok((rest, vec![method, path, protocol]))
}

fn nom_field(input: &[u8]) -> IResult<&[u8], Parts<'_>> {
    let (rest, (key, _, value)) = tuple((
        take_until(":"),
        tag(": "),
        terminated(take_until("\r\n"), tag("\r\n")),
    ))
    .parse(input)?;
    Ok((rest, vec![key, value]))
}

fn nom_head(input: &[u8]) -> Result<(Vec<u8>, Vec<String>, Vec<(String, String)>), ParseError> {
    let (after_line, line) = outcome(nom_line(input))?;
    let from = &input[input.len() - after_line.len() - 2..];
    let blank: IResult<&[u8], &[u8]> = take_until("\r\n\r\n").parse(from);
    let (at_blank, before) = match blank {
        Ok(found) => found,
        Err(_) => return Err(ParseError::NeedMore),
    };
    let mut lines = &from[2..before.len() + 2];
    let mut fields: Vec<(String, String)> = Vec::new();
    while !lines.is_empty() {
        let one_line: IResult<&[u8], &[u8]> =
            terminated(take_until("\r\n"), tag("\r\n")).parse(lines);
        let (after, kv) = outcome(nom_field(lines)).map_err(|_| ParseError::Malformed)?;
        match one_line {
            Ok((behind, _)) if behind.len() == after.len() => {}
            _ => return Err(ParseError::Malformed),
        }
        match fields.iter_mut().find(|f| f.0 == kv[0]) {
            Some(f) => f.1 = kv[1].clone(),
            None => fields.push((kv[0].clone(), kv[1].clone())),
        }
        lines = after;
    }
    Ok((at_blank[4..].to_vec(), line, fields))
}

fn nom_frame(input: &[u8]) -> Result<(Vec<u8>, Vec<u8>, usize), CodecError> {
    let parsed: IResult<&[u8], (&[u8], &[u8], &[u8])> = tuple((
        take_until(" "),
        tag(" "),
        terminated(take_until("\r\n"), tag("\r\n")),
    ))
    .parse(input);
    match parsed {
        Ok((rest, (token, _, id))) => Ok((token.to_vec(), id.to_vec(), input.len() - rest.len())),
        Err(_) => Err(CodecError::NeedMore),
    }
}

fn samples() -> Vec<Vec<u8>> {
    let whole: [&[u8]; 14] = [
        b"Get /index.html?a=1 Http/1.1\r\nHost: www.baidu.com\r\nContent-Type: text/html;charset=utf-8\r\nContent-Length: 100\r\n\r\nbody",
        b"GET /x HTTP/1.1\r\nHost: orig\r\n\r\n",
        b"GET / HTTP/1.1\r\n\r\n\r\n",
        b"GET / HTTP/1.1\r\n\r\n",
        b"A: 1\r\nB: 2\r\nA: 3\r\n\r\n",
        b"GET / HTTP/1.1\r\nA: 1\r\nbroken:line\r\nB: 2\r\n\r\n",
        b"GET / HTTP/1.1\r\nA: 1\r\nB: 2\r\nA: 3\r\n\r\ntail",
        b"no-space-here\r\n\r\n",
        b"one two\r\nthree four\r\nK: v\r\n\r\n",
        b"G\xffT /\xc3\xa9 HTTP/1.1\r\nNa\xffme: v\xc3\xa9\r\n\r\n",
        b":: : :\r\n\r\n: \r\n\r\n",
        b"  \r\n: \r\n\r\n",
        b"heartbeat \r\ninitialize:3361 \r\nnew_connection a b c\r\n",
        b"\r\n\r\n \r\n\r\n  \r\n\r\n",
    ];
    let mut all = Vec::new();
    for w in whole {
        for k in 0..=w.len() {
            all.push(w[..k].to_vec());
            all.push(w[k..].to_vec());
        }
    }
    all
}

#[test]
fn request_lines_read_as_the_combinators_read_them() {
    for input in samples() {
        let ours = parser_request_line(&input).map(|(rest, line)| {
            (rest, vec![line.method, line.path, line.protocol])
        });
        assert_eq!(ours, outcome(nom_line(&input)), "{:?}", input);
    }
}

#[test]
fn header_fields_read_as_the_combinators_read_them() {
    for input in samples() {
        let ours = parser_request_header(&input).map(|(rest, (k, v))| (rest, vec![k, v]));
        assert_eq!(ours, outcome(nom_field(&input)), "{:?}", input);
    }
}

#[test]
fn heads_read_line_by_line_as_the_combinators_read_each_line() {
    for input in samples() {
        let ours = parser_request_head_all(&input).map(|(rest, (line, headers))| {
            let mut fields = Vec::new();
            for i in 0..headers.len() {
                let (k, v) = headers.field(i);
                fields.push((k.clone(), v.clone()));
            }
            (
                rest.to_vec(),
                vec![line.method, line.path, line.protocol],
                fields,
            )
        });
        assert_eq!(ours, nom_head(&input), "{:?}", input);
    }
}

#[test]
fn frames_are_cut_where_the_combinators_cut_them() {
    for input in samples() {
        let theirs = nom_frame(&input);
        match RTCPMessage::deserialize(&input) {
            Err(CodecError::NeedMore) => assert!(theirs.is_err(), "{:?}", input),
            Err(CodecError::Invalid) => assert!(theirs.is_ok(), "{:?}", input),
            Ok((message, n)) => {
                let (token, id, size) = theirs.unwrap();
                assert_eq!(n, size);
                assert_eq!(message.message_type.to_string().into_bytes(), token);
                assert_eq!(message.connect_id.unwrap_or_default().into_bytes(), id);
            }
        }
    }
}
