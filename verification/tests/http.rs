use case_insensitive_hashmap::CaseInsensitiveHashMap;
use remote_fs::http_lib::{
    build_http_response, construct_http_response, extract_line, extract_path_and_method, find_double_crlf,
    parse_request, parse_search_options, try_parse_request, BasicHTTPDataToSet,
    ResponseDataToSet,
};

#[test]
fn extract_line_takes_complete_lines() {
    let text = b"first\nsecond\nrest";
    assert_eq!(extract_line(text, 0), Some(&b"first"[..]));
    assert_eq!(extract_line(text, 1), Some(&b"second"[..]));
    assert_eq!(extract_line(text, 2), None);
    assert_eq!(extract_line(b"no newline", 0), None);
    assert_eq!(extract_line(b"\n", 0), Some(&b""[..]));
}

#[test]
fn find_double_crlf_finds_the_blank_line() {
    assert_eq!(find_double_crlf(b"GET / HTTP/1.1\r\nHost: x\r\n\r\nbody"), Some(23));
    assert_eq!(find_double_crlf(b"\r\n\r\n"), Some(0));
    assert_eq!(find_double_crlf(b"a\r\n\r"), None);
    assert_eq!(find_double_crlf(b""), None);
}

#[test]
fn search_options_split_at_ampersand_and_first_equals() {
    assert_eq!(
        parse_search_options("path=/a&x=1&flag"),
        vec![("path", "/a"), ("x", "1"), ("flag", "")]
    );
    assert_eq!(parse_search_options("a=b=c"), vec![("a", "b=c")]);
    assert_eq!(parse_search_options(""), vec![("", "")]);
    assert_eq!(parse_search_options("&"), vec![("", ""), ("", "")]);
}

#[test]
fn search_options_rejoin_to_the_query() {
    let q = "path=%2Fx&k=v=w&&z";
    let pairs = parse_search_options(q);
    let pieces: Vec<String> = pairs
        .iter()
        .zip(q.split('&'))
        .map(|((k, v), piece)| {
            if piece.contains('=') {
                format!("{}={}", k, v)
            } else {
                assert_eq!(*v, "");
                k.to_string()
            }
        })
        .collect();
    assert_eq!(pieces.join("&"), q);
}

#[test]
fn path_and_method_are_split() {
    let mut path = String::from("unchanged");
    let mut method = String::from("unchanged");
    extract_path_and_method("GET /api/file?path=x", &mut path, &mut method);
    assert_eq!(method, "GET");
    assert_eq!(path, "/api/file?path=x");
    extract_path_and_method("PATCH \t /x", &mut path, &mut method);
    assert_eq!(method, "PATCH");
    assert_eq!(path, "/x");
    extract_path_and_method("POSTAL /y", &mut path, &mut method);
    assert_eq!(method, "POST");
    assert_eq!(path, "AL /y");
}

#[test]
fn unknown_method_leaves_both_unchanged() {
    let mut path = String::from("p");
    let mut method = String::from("m");
    extract_path_and_method("OPTIONS /x", &mut path, &mut method);
    assert_eq!(path, "p");
    assert_eq!(method, "m");
}

#[test]
fn request_is_taken_apart() {
    let raw = b"GET /api/file HTTP/1.1\r\nHost: example\r\nX-Key:  v\r\n\r\nbody".to_vec();
    let r = parse_request(raw);
    assert_eq!(r.method_and_path, "GET /api/file");
    assert_eq!(r.base.data, b"body".to_vec());
    assert_eq!(r.base.headers.get("host"), Some(&"example".to_string()));
    assert_eq!(r.base.headers.get("X-KEY"), Some(&"v".to_string()));
    assert_eq!(r.base.headers.len(), 2);
}

#[test]
fn later_headers_replace_earlier_ones_whatever_their_case() {
    let raw = b"POST /x HTTP/1.1\r\nHost: a\r\nhost: b\r\nnocolon\r\n\r\n".to_vec();
    let r = parse_request(raw);
    assert_eq!(r.base.headers.get("HOST"), Some(&"b".to_string()));
    assert_eq!(r.base.headers.len(), 1);
    assert!(r.base.data.is_empty());
}

#[test]
fn invalid_bytes_in_headers_become_replacement_characters() {
    let raw = b"GET / HTTP/1.1\r\nName: a\xffb\r\n\r\n".to_vec();
    let r = parse_request(raw);
    assert_eq!(r.base.headers.get("name"), Some(&"a\u{fffd}b".to_string()));
}

#[test]
fn unparsable_requests_give_none() {
    // no blank line
    assert!(try_parse_request(b"GET / HTTP/1.1\r\nHost: x\r\n".to_vec()).is_none());
    // the head has no line ended by a newline
    assert!(try_parse_request(b"GET / HTTP/1.1\r\n\r\n".to_vec()).is_none());
    // no protocol marker in the first line
    assert!(try_parse_request(b"GET /\r\nHost: x\r\n\r\n".to_vec()).is_none());
    // a header line that is empty
    assert!(try_parse_request(b"\r\nGET / HTTP/1.1\r\n\r\n".to_vec()).is_none());
}

#[test]
fn parsable_requests_are_parsed() {
    let r = try_parse_request(b"PUT /a HTTP/1.0\r\nK: v\r\n\r\nxyz".to_vec()).unwrap();
    assert_eq!(r.method_and_path, "PUT /a");
    assert_eq!(r.base.data, b"xyz".to_vec());
}

fn response(code: i32, msg: &str, headers: Vec<(&str, &str)>, data: &[u8]) -> String {
    let mut map = CaseInsensitiveHashMap::new();
    for (k, v) in headers {
        map.insert(k.to_string(), v.to_string());
    }
    let bytes = construct_http_response(ResponseDataToSet {
        base: BasicHTTPDataToSet { headers: map, data: data.to_vec() },
        code,
        msg: msg.to_string(),
    });
    String::from_utf8(bytes).unwrap()
}

#[test]
fn response_has_status_headers_and_body() {
    let text = response(200, "OK", vec![("X-A", "1")], b"hi");
    assert!(text.starts_with("HTTP/1.1 200 OK\r\n"));
    assert!(text.ends_with("\r\n\nhi"));
    let head = &text[..text.len() - "\r\n\nhi".len()];
    let lines: Vec<&str> = head.split("\r\n").collect();
    assert_eq!(lines.len(), 4);
    assert!(lines.contains(&"X-A: 1"));
    assert!(lines.contains(&"Content-Length: 2"));
    assert!(lines.iter().any(|l| l.starts_with("Date: ") && l.ends_with(" GMT")));
}

#[test]
fn response_length_replaces_a_given_one() {
    let text = response(404, "Not Found", vec![("content-length", "99")], b"");
    assert!(text.starts_with("HTTP/1.1 404 Not Found\r\n"));
    assert!(text.contains("content-length: 0"));
    assert!(!text.contains("99"));
    assert!(text.ends_with("\r\n\n"));
}

#[test]
fn response_with_negative_code() {
    let text = response(-1, "odd", vec![], b"x");
    assert!(text.starts_with("HTTP/1.1 -1 odd\r\n"));
    assert!(text.contains("Content-Length: 1"));
}

fn dated_response(headers: Vec<(&str, &str)>, data: &[u8], date: &str) -> String {
    let mut map = CaseInsensitiveHashMap::new();
    for (k, v) in headers {
        map.insert(k.to_string(), v.to_string());
    }
    let bytes = build_http_response(
        ResponseDataToSet {
            base: BasicHTTPDataToSet { headers: map, data: data.to_vec() },
            code: 200,
            msg: "OK".to_string(),
        },
        date.to_string(),
    );
    String::from_utf8(bytes).unwrap()
}

#[test]
fn dated_response_carries_the_given_date() {
    let date = "Tue, 19 Nov 2024 18:31:00 GMT";
    let text = dated_response(vec![], b"abc", date);
    let expected_a = format!("HTTP/1.1 200 OK\r\nDate: {date}\r\nContent-Length: 3\r\n\nabc");
    let expected_b = format!("HTTP/1.1 200 OK\r\nContent-Length: 3\r\nDate: {date}\r\n\nabc");
    assert!(text == expected_a || text == expected_b);
}

#[test]
fn each_header_name_appears_once_ignoring_case() {
    let date = "Wed, 01 Jan 2025 00:00:00 GMT";
    let text = dated_response(
        vec![("DATE", "old"), ("CONTENT-length", "99"), ("X-Tag", "v"), ("x-tag", "w")],
        b"hello",
        date,
    );
    let head = &text[..text.len() - "\r\n\nhello".len()];
    let lines: Vec<&str> = head.split("\r\n").skip(1).collect();
    assert_eq!(lines.len(), 3);
    assert!(lines.contains(&format!("DATE: {date}").as_str()));
    assert!(lines.contains(&"CONTENT-length: 5"));
    assert!(lines.contains(&"X-Tag: w"));
}

#[test]
fn valid_request_head_is_kept_byte_for_byte() {
    let r = parse_request("GET /caf\u{e9} HTTP/1.1\r\nN\u{e4}me: v\u{e4}l\r\n\r\n".as_bytes().to_vec());
    assert_eq!(r.method_and_path, "GET /caf\u{e9}");
    assert_eq!(r.base.headers.get("n\u{e4}me").map(|v| v.as_str()), Some("v\u{e4}l"));
}

#[test]
fn current_date_has_the_http_date_shape() {
    let text = response(200, "OK", vec![], b"");
    let line = text
        .split("\r\n")
        .find(|l| l.starts_with("Date: "))
        .unwrap();
    let date: Vec<char> = line["Date: ".len()..].chars().collect();
    let n = date.len();
    assert!(n >= 29);
    let day: String = date[..3].iter().collect();
    assert!(["Sun", "Mon", "Tue", "Wed", "Thu", "Fri", "Sat"].contains(&day.as_str()));
    assert_eq!((date[3], date[4], date[7], date[11]), (',', ' ', ' ', ' '));
    assert!(date[5].is_ascii_digit() && date[6].is_ascii_digit());
    let month: String = date[8..11].iter().collect();
    let months = ["Jan", "Feb", "Mar", "Apr", "May", "Jun", "Jul", "Aug", "Sep", "Oct", "Nov", "Dec"];
    assert!(months.contains(&month.as_str()));
    assert!(date[12..n - 13].iter().all(|c| c.is_ascii_digit()));
    let time: String = date[n - 13..].iter().collect();
    assert_eq!(&time[..1], " ");
    assert_eq!(&time[3..4], ":");
    assert_eq!(&time[6..7], ":");
    assert!(time.ends_with(" GMT"));
}
