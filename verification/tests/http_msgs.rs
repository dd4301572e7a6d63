use web_server::http_msgs::{
    split_once_string, test_ra0, HeaderCollection, HeaderCollectionEntry, HeaderName, HeaderVal,
    HttpParseError, HttpReqBase,
};

fn val_text(v: Option<&HeaderVal>) -> Option<Option<String>> {
    match v {
        None => None,
        Some(HeaderVal::Flag()) => Some(None),
        Some(HeaderVal::Value(x)) => Some(Some(x.clone())),
    }
}

#[test]
fn parse_full_request() {
    let req = HttpReqBase::try_parse(
        "GET /index.html HTTP/1.1\r\nHost: example.com\r\nX-Flag\r\nAccept: a: b\r\n\r\nhello\r\nworld\n\nignored",
    )
    .unwrap();
    assert_eq!(req.command, "GET");
    assert_eq!(req.path, "/index.html");
    assert_eq!(req.msg_type, "HTTP/1.1");
    assert_eq!(req.headers.len(), 3);
    assert_eq!(val_text(req.headers.get("Host")), Some(Some("example.com".to_string())));
    assert_eq!(val_text(req.headers.get("X-Flag")), Some(None));
    assert_eq!(val_text(req.headers.get("Accept")), Some(Some("a: b".to_string())));
    assert_eq!(val_text(req.headers.get("Missing")), None);
    assert_eq!(req.content, Some("helloworld".to_string()));
}

#[test]
fn parse_request_line_only() {
    let req = HttpReqBase::try_parse("POST /x HTTP/1.0").unwrap();
    assert_eq!(req.command, "POST");
    assert_eq!(req.path, "/x");
    assert_eq!(req.msg_type, "HTTP/1.0");
    assert_eq!(req.headers.len(), 0);
    assert_eq!(req.content, None);
}

#[test]
fn parse_keeps_third_word_only() {
    let req = HttpReqBase::try_parse("GET / HTTP/1.1 extra words\n").unwrap();
    assert_eq!(req.msg_type, "HTTP/1.1");
}

#[test]
fn later_header_replaces_earlier() {
    let req = HttpReqBase::try_parse("GET / HTTP/1.1\nA: 1\nA\nB: 2\nA: 3\n").unwrap();
    assert_eq!(req.headers.len(), 2);
    assert_eq!(val_text(req.headers.get("A")), Some(Some("3".to_string())));
    assert_eq!(val_text(req.headers.get("B")), Some(Some("2".to_string())));
}

#[test]
fn content_without_headers() {
    let req = HttpReqBase::try_parse("GET / HTTP/1.1\n\nbody").unwrap();
    assert_eq!(req.headers.len(), 0);
    assert_eq!(req.content, Some("body".to_string()));
}

#[test]
fn parse_errors_on_short_request_line() {
    for s in ["", "GET", "GET /", "GET /\nHost: x"] {
        let err = HttpReqBase::try_parse(s).unwrap_err();
        assert_eq!(err.what_happened, "String is very empty");
    }
}

#[test]
fn empty_first_line_is_an_error() {
    assert!(HttpReqBase::try_parse("\nGET / HTTP/1.1").is_err());
}

#[test]
fn split_once_string_cases() {
    assert_eq!(split_once_string("Host: a", ": "), ("Host", Some("a")));
    assert_eq!(split_once_string("Flag", ": "), ("Flag", None));
    assert_eq!(split_once_string("a: b: c", ": "), ("a", Some("b: c")));
    assert_eq!(split_once_string("ends: ", ": "), ("ends", Some("")));
    assert_eq!(split_once_string("", ""), ("", None));
    assert_eq!(split_once_string("xy", ""), ("", Some("xy")));
    assert_eq!(split_once_string("x\u{e9}ab", "\u{e9}a"), ("x", Some("ab")));
}

#[test]
fn header_val_conversions() {
    let v: HeaderVal = HeaderVal::from(Some("x".to_string()));
    assert_eq!(v.into(), Some("x".to_string()));
    let f: HeaderVal = HeaderVal::from(None);
    assert_eq!(f.into(), None);
}

#[test]
fn collection_from_flags_and_values() {
    let c = HeaderCollection::from_flags_and_values((
        vec![HeaderName("A".to_string()), HeaderName("B".to_string())],
        vec![(HeaderName("B".to_string()), "v".to_string())],
    ));
    assert_eq!(c.len(), 2);
    assert_eq!(val_text(c.get("A")), Some(None));
    assert_eq!(val_text(c.get("B")), Some(Some("v".to_string())));
}

#[test]
fn collection_from_entries() {
    let c = HeaderCollection::from_entries(vec![
        HeaderCollectionEntry::new_value("K".to_string(), "1".to_string()),
        HeaderCollectionEntry::new_flag("K".to_string()),
        HeaderCollectionEntry::from(HeaderName("J".to_string())),
        HeaderCollectionEntry::from_name_and_val((
            HeaderName("L".to_string()),
            HeaderVal::Value("2".to_string()),
        )),
    ]);
    assert_eq!(c.len(), 3);
    assert_eq!(val_text(c.get("K")), Some(None));
    assert_eq!(val_text(c.get("J")), Some(None));
    assert_eq!(val_text(c.get("L")), Some(Some("2".to_string())));
}

#[test]
fn insert_then_get() {
    let mut c = HeaderCollection::new();
    assert_eq!(c.len(), 0);
    c.insert(HeaderName("N".to_string()), HeaderVal::Value("1".to_string()));
    c.insert(HeaderName("M".to_string()), HeaderVal::Flag());
    c.insert(HeaderName("N".to_string()), HeaderVal::Value("2".to_string()));
    assert_eq!(c.len(), 2);
    assert_eq!(val_text(c.get("N")), Some(Some("2".to_string())));
    assert_eq!(val_text(c.get("M")), Some(None));
}

#[test]
fn parse_error_text() {
    let e = HttpParseError::new("why".to_string());
    assert_eq!(e.what_happened, "why");
    assert_eq!(e.display_text(), "fuck");
}

#[test]
fn marker_is_appended() {
    let mut s = String::from("x");
    test_ra0(&mut s);
    assert_eq!(s, "xasdf");
}

#[test]
fn lines_are_split_as_std_does() {
    for s in [
        "GET / HTTP/1.1\r",
        "GET / HTTP/1.1\r\n\r\nbody\r",
        "GET / HTTP/1.1\nA: b\r\r\n\nx\r\ny\n",
        "GET  / HTTP/1.1\n\n\nlate",
    ] {
        let req = HttpReqBase::try_parse(s).unwrap();
        let mut lines = s.lines();
        let mut words = lines.next().unwrap().splitn(3, ' ');
        assert_eq!(req.command, words.next().unwrap());
        assert_eq!(req.path, words.next().unwrap());
        let third = words.next().unwrap();
        assert_eq!(req.msg_type, third.split_once(' ').map(|p| p.0).unwrap_or(third));
        let mut headers = 0;
        for l in lines.by_ref() {
            if l.is_empty() {
                break;
            }
            headers += 1;
        }
        assert!(req.headers.len() <= headers);
        let mut content = String::new();
        for l in lines.by_ref() {
            if l.is_empty() {
                break;
            }
            content.push_str(l);
        }
        assert_eq!(req.content, if content.is_empty() { None } else { Some(content) });
    }
}
