use rtcp::headers::Headers;
use rtcp::parser::parser_request_head_all;
use rtcp::parser::parser_request_header;
use rtcp::parser::parser_request_line;
use rtcp::parser::ParseError;
use rtcp::parser::RequestLine;

#[test]
fn parser_request_line_by_str() {
    let row = "Get /index.html Http/1.1\r\n";
    let a = parser_request_line(row.as_bytes()).unwrap();
    println!("{:?}", a.1);
    assert_eq!(a.0, b"");
    assert_eq!(a.1.method, "Get");
    assert_eq!(a.1.path, "/index.html");
    assert_eq!(a.1.protocol, "Http/1.1");
}

#[test]
fn main_request_line_by_str() {
    let row = "Get /index.html Http/1.1\r\n";
    let a = parser_request_line(row.as_bytes()).unwrap();
    println!("{:?}", a.1);
}

#[test]
fn parser_parse_request_line_by_steam() {
    let row = b"Get /index.html Http/1.1\r\n";
    let res = parser_request_line(row);
    println!("{:?}", res);
    assert!(res.is_ok());
}

#[test]
fn main_parse_request_line_by_steam() {
    let row = b"Get /index.html Http/1.1\r\n";
    let res = parser_request_line(row);
    println!("{:?}", res);
}

#[test]
fn parser_test_parse_request_header() {
    let row = b"Host: www.baidu.com\r\n";
    let (_input, (key, value)) = parser_request_header(row).unwrap();
    let co = key == "Host" && value == "www.baidu.com";
    assert!(
        key == "Host" && value == "www.baidu.com",
        "{key}--{value}--{co}"
    );
}

#[test]
fn main_test_parse_request_header() {
    let row = b"Host: www.baidu.com\r\n";
    let (_input, (key, value)) = parser_request_header(row).unwrap();
    let co = key == "Host" && value == "www.baidu.com";
    assert!(
        key == "Host" && value == "www.baidu.com",
        "{key}--{value}--{co}"
    );
}

#[test]
fn parser_test_parse_request_head() {
    let row = b"Get /index.html?a=1 Http/1.1\r\nHost: www.baidu.com\r\nContent-Type: text/html;charset=utf-8\r\nContent-Length: 100\r\n\r\n";
    let (input, request_line) = parser_request_line(row).unwrap();
    assert_eq!(request_line.method, "Get");
    assert_eq!(request_line.path, "/index.html?a=1");
    assert_eq!(request_line.protocol, "Http/1.1");

    let (input, header) = parser_request_header(input).unwrap();
    assert_eq!(header, ("Host".to_owned(), "www.baidu.com".to_owned()));
    let (input, header) = parser_request_header(input).unwrap();
    assert_eq!(
        header,
        (
            "Content-Type".to_owned(),
            "text/html;charset=utf-8".to_owned()
        ),
        "header: {header:?}"
    );
    let (input, header) = parser_request_header(input).unwrap();
    assert_eq!(
        header,
        ("Content-Length".to_owned(), "100".to_owned()),
        "Content-Length: {header:?}"
    );
    assert_eq!(input, b"\r\n", "rest: {input:?}");
}

#[test]
fn main_test_parse_request_head() {
    let row = b"Get /index.html?a=1 Http/1.1\r\nHost: www.baidu.com\r\nContent-Type: text/html;charset=utf-8\r\nContent-Length: 100\r\n\r\n";
    let (input, request_line) = parser_request_line(row).unwrap();
    assert_eq!(request_line.method, "Get");
    assert_eq!(request_line.path, "/index.html?a=1");
    assert_eq!(request_line.protocol, "Http/1.1");

    let (input, header) = parser_request_header(input).unwrap();
    assert_eq!(header, ("Host".to_owned(), "www.baidu.com".to_owned()));
    let (input, header) = parser_request_header(input).unwrap();
    assert_eq!(header, ("Content-Type".to_owned(), "text/html;charset=utf-8".to_owned()), "header: {header:?}");
    let (input, header) = parser_request_header(input).unwrap();
    assert_eq!(header, ("Content-Length".to_owned(), "100".to_owned()), "Content-Length: {header:?}");
    assert_eq!(input, b"\r\n", "rest: {input:?}");
}

#[test]
fn parse_head() {
    let row = b"Get /index.html?a=1 Http/1.1\r\nHost: www.baidu.com\r\nContent-Type: text/html;charset=utf-8\r\nContent-Length: 100\r\n\r\n";

    let (input, (request_line, headers)) = parser_request_head_all(row).unwrap();

    assert!(input.is_empty(), "rest: {input:?}");
    assert_eq!(request_line.method, "Get");
    assert_eq!(headers.len(), 3);
    assert_eq!(headers.get("Host").map(|s| s.as_str()), Some("www.baidu.com"));
    assert_eq!(
        headers.get("Content-Type").map(|s| s.as_str()),
        Some("text/html;charset=utf-8")
    );
    assert_eq!(headers.get("Content-Length").map(|s| s.as_str()), Some("100"));
    assert_eq!(headers.get("content-length"), None);
}

#[test]
fn parse_head_no_complete() {
    let row = b"Get /index.html?a=1 Http/1.1\r\nHost: www.baidu.com\r\nContent-Type: text/html;charset=utf-8\r\nContent-Length: ";

    let res = parser_request_head_all(row);

    println!("{res:?}");
    assert!(res.is_err());
    assert_eq!(res.unwrap_err(), ParseError::NeedMore);
}

#[test]
fn to_byte_writes_the_line() {
    let line = RequestLine {
        method: "GET".to_string(),
        path: "/x".to_string(),
        protocol: "HTTP/1.1".to_string(),
    };
    assert_eq!(line.to_byte(), b"GET /x HTTP/1.1\r\n".to_vec());
    let empty = RequestLine {
        method: String::new(),
        path: String::new(),
        protocol: String::new(),
    };
    assert_eq!(empty.to_byte(), b"  \r\n".to_vec());
}

#[test]
fn a_line_needs_two_spaces_and_a_line_end() {
    assert_eq!(parser_request_line(b"").unwrap_err(), ParseError::NeedMore);
    assert_eq!(parser_request_line(b"GET").unwrap_err(), ParseError::NeedMore);
    assert_eq!(parser_request_line(b"GET /x").unwrap_err(), ParseError::NeedMore);
    assert_eq!(
        parser_request_line(b"GET /x HTTP/1.1").unwrap_err(),
        ParseError::NeedMore
    );
    assert_eq!(
        parser_request_line(b"GET /x HTTP/1.1\r").unwrap_err(),
        ParseError::NeedMore
    );
    let (rest, line) = parser_request_line(b"GET /x HTTP/1.1\r\nrest").unwrap();
    assert_eq!(rest, b"rest");
    assert_eq!(line.to_byte(), b"GET /x HTTP/1.1\r\n".to_vec());
}

#[test]
fn a_part_that_is_no_text_reads_as_empty() {
    let (_, line) = parser_request_line(b"G\xffT /x HTTP/1.1\r\n").unwrap();
    assert_eq!(line.method, "");
    assert_eq!(line.path, "/x");
    let (_, (name, value)) = parser_request_header(b"Na\xffme: v\xc3\xa9\r\n").unwrap();
    assert_eq!(name, "");
    assert_eq!(value, "v\u{e9}");
}

#[test]
fn a_field_needs_colon_space_and_line_end() {
    assert_eq!(parser_request_header(b"").unwrap_err(), ParseError::NeedMore);
    assert_eq!(parser_request_header(b"Host").unwrap_err(), ParseError::NeedMore);
    assert_eq!(parser_request_header(b"Host:").unwrap_err(), ParseError::NeedMore);
    assert_eq!(
        parser_request_header(b"Host:x\r\n").unwrap_err(),
        ParseError::Malformed
    );
    assert_eq!(
        parser_request_header(b"Host: x").unwrap_err(),
        ParseError::NeedMore
    );
    let (rest, (name, value)) = parser_request_header(b"Host: \r\nmore").unwrap();
    assert_eq!(name, "Host");
    assert_eq!(value, "");
    assert_eq!(rest, b"more");
    let (_, (name, value)) = parser_request_header(b"A: b: c\r\n").unwrap();
    assert_eq!(name, "A");
    assert_eq!(value, "b: c");
}

#[test]
fn of_two_fields_with_one_name_the_later_counts() {
    let row = b"GET / HTTP/1.1\r\nA: 1\r\nB: 2\r\nA: 3\r\n\r\nbody";
    let (rest, (_, headers)) = parser_request_head_all(row).unwrap();
    assert_eq!(rest, b"body");
    assert_eq!(headers.len(), 2);
    assert_eq!(headers.get("A").map(|s| s.as_str()), Some("3"));
    assert_eq!(headers.get("B").map(|s| s.as_str()), Some("2"));
    let first = headers.field(0);
    assert_eq!((first.0.as_str(), first.1.as_str()), ("A", "3"));
    let second = headers.field(1);
    assert_eq!((second.0.as_str(), second.1.as_str()), ("B", "2"));
}

#[test]
fn a_header_line_that_is_no_field_makes_the_head_malformed() {
    let bad: [&[u8]; 7] = [
        b"GET / HTTP/1.1\r\nA: 1\r\nbroken:line\r\nB: 2\r\n\r\n",
        b"GET / HTTP/1.1\r\nA: 1\r\nno colon here\r\nB: 2\r\n\r\n",
        b"GET / HTTP/1.1\r\nno colon at all\r\n\r\n",
        b"GET / HTTP/1.1\r\nFoo\r\nBar: x\r\n\r\n",
        b"GET / HTTP/1.1\r\nA: 1\r\nB:\r\n\r\n",
        b"GET / HTTP/1.1\r\nA: 1\r\nB\r\n\r\n",
        b"GET / HTTP/1.1\r\n:x\r\n\r\n",
    ];
    for row in bad {
        assert_eq!(
            parser_request_head_all(row).unwrap_err(),
            ParseError::Malformed,
            "{:?}",
            row
        );
    }
}

#[test]
fn as_long_as_no_empty_line_is_there_more_is_needed() {
    let row = b"GET / HTTP/1.1\r\nA: 1\r\nbroken:line\r\nB: 2\r\n\r\n";
    for k in 0..row.len() {
        assert_eq!(
            parser_request_head_all(&row[..k]).unwrap_err(),
            ParseError::NeedMore,
            "cut at {}",
            k
        );
    }
}

#[test]
fn a_head_without_fields_ends_with_its_empty_line() {
    let (rest, (line, headers)) = parser_request_head_all(b"GET / HTTP/1.1\r\n\r\n").unwrap();
    assert_eq!(line.method, "GET");
    assert_eq!(line.path, "/");
    assert_eq!(line.protocol, "HTTP/1.1");
    assert_eq!(headers.len(), 0);
    assert_eq!(rest, b"");
    let (rest, (line, headers)) =
        parser_request_head_all(b"GET / HTTP/1.1\r\n\r\n\r\nx").unwrap();
    assert_eq!(line.path, "/");
    assert_eq!(headers.len(), 0);
    assert_eq!(rest, b"\r\nx");
    assert_eq!(
        parser_request_head_all(b"GET / HTTP/1.1\r\n\r").unwrap_err(),
        ParseError::NeedMore
    );
    assert_eq!(
        parser_request_head_all(b"GET / HTTP/1.1\r\n").unwrap_err(),
        ParseError::NeedMore
    );
}

#[test]
fn the_rest_behind_a_head_is_exactly_the_body() {
    let heads: [&[u8]; 4] = [
        b"GET / HTTP/1.1\r\n\r\n",
        b"GET /x HTTP/1.1\r\nHost: orig\r\n\r\n",
        b"POST /p HTTP/1.1\r\nA: 1\r\nB: \r\nC: 3\r\n\r\n",
        b"  \r\n: \r\n\r\n",
    ];
    let bodies: [&[u8]; 5] = [b"", b"x", b"\r\n", b"\r\n\r\nGET / HTTP/1.1\r\n\r\n", b"\n\r\n"];
    for head in heads {
        for body in bodies {
            let mut input = head.to_vec();
            input.extend_from_slice(body);
            let (rest, _) = parser_request_head_all(&input).unwrap();
            assert_eq!(rest, body, "{:?} {:?}", head, body);
        }
    }
}

#[test]
fn headers_keep_each_name_once_and_in_order() {
    let mut h = Headers::new();
    assert_eq!(h.len(), 0);
    assert_eq!(h.get("a"), None);
    assert_eq!(h.index_of("a"), None);
    h.insert("a".to_string(), "1".to_string());
    h.insert("b".to_string(), "2".to_string());
    h.insert("a".to_string(), "3".to_string());
    assert_eq!(h.len(), 2);
    assert_eq!(h.index_of("a"), Some(0));
    assert_eq!(h.index_of("b"), Some(1));
    assert_eq!(h.get("a").map(|s| s.as_str()), Some("3"));
    assert_eq!(h.get("b").map(|s| s.as_str()), Some("2"));
    assert_eq!(h.get("A"), None);
}
