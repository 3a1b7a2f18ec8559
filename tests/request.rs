use event_schema::request::{Cookies, Headers, Query, Request};
use event_schema::text::normalize_header;
use event_schema::value::{Annotated, Object, Val};

#[test]
fn test_header_normalization() {
    let json = r#"{
  "-other-": "header",
  "accept": "application/json",
  "x-sentry": "version=8"
}"#;

    let mut map = Object::new();
    map.insert("Accept".to_string(), Annotated::new("application/json".to_string()));
    map.insert("X-Sentry".to_string(), Annotated::new("version=8".to_string()));
    map.insert("-Other-".to_string(), Annotated::new("header".to_string()));

    let headers = Annotated::new(Headers(map));
    assert_eq!(headers, Annotated::from_json(json).unwrap());
}

#[test]
fn test_header_from_sequence() {
    let json = r#"[
  ["accept", "application/json"]
]"#;

    let mut map = Object::new();
    map.insert("Accept".to_string(), Annotated::new("application/json".to_string()));

    let headers = Annotated::new(Headers(map));
    assert_eq!(headers, Annotated::from_json(json).unwrap());

    let json = r#"[
  ["accept", "application/json"],
  ["whatever", 42],
  [1, 2],
  ["a", "b", "c"],
  23
]"#;
    let headers = Annotated::<Headers>::from_json(json).unwrap();
    assert_eq!(
        headers.to_json(),
        r#"{"Accept":"application/json","Whatever":null,"_meta":{"":{"err":["invalid non-header values"],"val":[[1,2],["a","b","c"],23]},"Whatever":{"":{"err":["expected a string"],"val":42}}}}"#
    );
}

#[test]
fn test_request_roundtrip() {
    let json = r#"{
  "url": "https://google.com/search",
  "method": "GET",
  "data": {
    "some": 1
  },
  "query_string": {
    "q": "foo"
  },
  "fragment": "home",
  "cookies": {
    "GOOGLE": "1"
  },
  "headers": {
    "Referer": "https://google.com/"
  },
  "env": {
    "REMOTE_ADDR": "213.47.147.207"
  },
  "inferred_content_type": "application/json",
  "other": "value"
}"#;

    let request = Annotated::new(Request {
        url: Annotated::new("https://google.com/search".to_string()),
        method: Annotated::new("GET".to_string()),
        data: {
            let mut map = Object::new();
            map.insert("some".to_string(), Annotated::new(Val::I64(1)));
            Annotated::new(Val::Object(map))
        },
        query_string: Annotated::new(Query({
            let mut map = Object::new();
            map.insert("q".to_string(), Annotated::new("foo".to_string()));
            map
        })),
        fragment: Annotated::new("home".to_string()),
        cookies: Annotated::new(Cookies({
            let mut map = Object::new();
            map.insert("GOOGLE".to_string(), Annotated::new("1".to_string()));
            map
        })),
        headers: Annotated::new(Headers({
            let mut map = Object::new();
            map.insert("Referer".to_string(), Annotated::new("https://google.com/".to_string()));
            map
        })),
        env: Annotated::new({
            let mut map = Object::new();
            map.insert(
                "REMOTE_ADDR".to_string(),
                Annotated::new(Val::String("213.47.147.207".to_string())),
            );
            map
        }),
        inferred_content_type: Annotated::new("application/json".to_string()),
        other: {
            let mut map = Object::new();
            map.insert("other".to_string(), Annotated::new(Val::String("value".to_string())));
            map
        },
    });

    assert_eq!(request, Annotated::from_json(json).unwrap());
    assert_eq!(json, request.to_json_pretty());
}

#[test]
fn test_query_string() {
    let mut map = Object::new();
    map.insert("foo".to_string(), Annotated::new("bar".to_string()));
    let query = Annotated::new(Query(map));
    assert_eq!(query, Annotated::from_json("\"foo=bar\"").unwrap());
    assert_eq!(query, Annotated::from_json("\"?foo=bar\"").unwrap());

    let mut map = Object::new();
    map.insert("foo".to_string(), Annotated::new("bar".to_string()));
    map.insert("baz".to_string(), Annotated::new("42".to_string()));
    let query = Annotated::new(Query(map));
    assert_eq!(query, Annotated::from_json("\"foo=bar&baz=42\"").unwrap());
}

#[test]
fn test_query_string_legacy_nested() {
    let mut map = Object::new();
    map.insert("foo".to_string(), Annotated::new("bar".to_string()));
    let query = Annotated::new(Query(map));
    assert_eq!(query, Annotated::from_json("\"foo=bar\"").unwrap());

    let mut map = Object::new();
    map.insert("foo".to_string(), Annotated::new("bar".to_string()));
    map.insert("baz".to_string(), Annotated::new(r#"{"a":42}"#.to_string()));
    let query = Annotated::new(Query(map));
    assert_eq!(
        query,
        Annotated::from_json(
            r#"
        {
            "foo": "bar",
            "baz": {"a": 42}
        }
    "#
        )
        .unwrap()
    );
}

#[test]
fn test_query_invalid() {
    let query = Annotated::<Query>::from_error("expected query-string or map", Some(Val::U64(64)));
    assert_eq!(query, Annotated::from_json("42").unwrap());
}

#[test]
fn test_cookies_parsing() {
    let json = "\" PHPSESSID=298zf09hf012fh2; csrftoken=u32t4o3tb3gg43; _gat=1;\"";

    let mut map = Object::new();
    map.insert("PHPSESSID".to_string(), Annotated::new("298zf09hf012fh2".to_string()));
    map.insert("csrftoken".to_string(), Annotated::new("u32t4o3tb3gg43".to_string()));
    map.insert("_gat".to_string(), Annotated::new("1".to_string()));

    let cookies = Annotated::new(Cookies(map));
    assert_eq!(cookies, Annotated::from_json(json).unwrap());
}

#[test]
fn test_cookies_object() {
    let json = r#"{"foo":"bar", "invalid": 42}"#;

    let mut map = Object::new();
    map.insert("foo".to_string(), Annotated::new("bar".to_string()));
    map.insert(
        "invalid".to_string(),
        Annotated::from_error("expected a string", Some(Val::U64(42))),
    );

    let cookies = Annotated::new(Cookies(map));
    assert_eq!(cookies, Annotated::from_json(json).unwrap());
}

#[test]
fn test_cookies_invalid() {
    let cookies = Annotated::<Cookies>::from_error("expected cookies", Some(Val::I64(42)));
    assert_eq!(cookies, Annotated::from_json("42").unwrap());
}

#[test]
fn header_normalization_is_idempotent() {
    for name in ["-other-", "x-sentry", "accept", "", "--", "content-TYPE", "ß-x"] {
        let once = normalize_header(name);
        assert_eq!(normalize_header(&once), once);
    }
    assert_eq!(normalize_header("-other-"), "-Other-");
    assert_eq!(normalize_header("x-sentry-auth"), "X-Sentry-Auth");
}

#[test]
fn cookie_segment_error_is_recorded() {
    let cookies = Annotated::<Cookies>::from_json("\"a=1; =2; b=3\"").unwrap();
    let Annotated(value, meta) = cookies;
    let value = value.unwrap();
    assert_eq!(value.0.len(), 2);
    assert_eq!(meta.errors, vec!["the cookie's name is empty".to_string()]);
}

#[test]
fn cookie_value_is_percent_decoded() {
    let cookies = Annotated::<Cookies>::from_json("\"a=b%20c\"").unwrap();
    let mut map = Object::new();
    map.insert("a".to_string(), Annotated::new("b c".to_string()));
    assert_eq!(cookies, Annotated::new(Cookies(map)));
}

#[test]
fn query_string_decodes_and_last_key_wins() {
    let query = Annotated::<Query>::from_json("\"a=x+y%21&a=z\"").unwrap();
    let mut map = Object::new();
    map.insert("a".to_string(), Annotated::new("z".to_string()));
    assert_eq!(query, Annotated::new(Query(map)));
    let query = Annotated::<Query>::from_json("\"b=x+y%21\"").unwrap();
    let mut map = Object::new();
    map.insert("b".to_string(), Annotated::new("x y!".to_string()));
    assert_eq!(query, Annotated::new(Query(map)));
}

#[test]
fn headers_reject_a_number() {
    let headers = Annotated::<Headers>::from_json("7").unwrap();
    assert_eq!(headers, Annotated::from_error("expected an object", Some(Val::I64(7))));
    let headers = Annotated::<Headers>::from_json("null").unwrap();
    assert_eq!(headers, Annotated::empty());
}

#[test]
fn malformed_json_is_an_error() {
    assert!(Annotated::<Request>::from_json("{").is_err());
}

#[test]
fn absent_request_fields_stay_empty() {
    let request = Annotated::<Request>::from_json(r#"{"method": 5}"#).unwrap();
    let r = request.0.unwrap();
    assert_eq!(r.url, Annotated::empty());
    assert_eq!(r.method, Annotated::from_error("expected a string", Some(Val::I64(5))));
    assert!(r.method.1.original_value == Some(Val::I64(5)));
}

#[test]
fn cookie_bad_segment_is_captured_and_rest_parsed() {
    let cookies = Annotated::<Cookies>::from_json("\"a=1;=x;b=2\"").unwrap();
    let Annotated(value, meta) = cookies;
    let mut map = Object::new();
    map.insert("a".to_string(), Annotated::new("1".to_string()));
    map.insert("b".to_string(), Annotated::new("2".to_string()));
    assert_eq!(value, Some(Cookies(map)));
    assert_eq!(meta.errors, vec!["the cookie's name is empty".to_string()]);
    assert!(meta.original_value == Some(Val::String("=x".to_string())));
}

#[test]
fn blank_cookie_header_gives_empty_map_without_error() {
    for text in ["\" ; ;\"", "\"\""] {
        let cookies = Annotated::<Cookies>::from_json(text).unwrap();
        assert_eq!(cookies, Annotated::new(Cookies(Object::new())));
        assert!(cookies.1.original_value.is_none());
    }
}

#[test]
fn repeated_cookie_keeps_last_value() {
    let cookies = Annotated::<Cookies>::from_json("\"a=1; a=2\"").unwrap();
    let mut map = Object::new();
    map.insert("a".to_string(), Annotated::new("2".to_string()));
    assert_eq!(cookies, Annotated::new(Cookies(map)));
}

#[test]
fn query_object_entries() {
    let query = Annotated::<Query>::from_json(r#"{"a": 5, "b": [1, "x"], "c": null}"#).unwrap();
    let mut map = Object::new();
    map.insert("a".to_string(), Annotated::from_error("expected a string", Some(Val::I64(5))));
    map.insert("b".to_string(), Annotated::new(r#"[1,"x"]"#.to_string()));
    map.insert("c".to_string(), Annotated::empty());
    assert_eq!(query, Annotated::new(Query(map)));
}

#[test]
fn headers_print_back() {
    let json = "{\n  \"Referer\": \"https://google.com/\"\n}";
    let headers = Annotated::<Headers>::from_json(json).unwrap();
    let mut map = Object::new();
    map.insert("Referer".to_string(), Annotated::new("https://google.com/".to_string()));
    assert_eq!(headers, Annotated::new(Headers(map)));
    assert_eq!(headers.to_json_pretty(), json);
}

#[test]
fn headers_valid_pairs_leave_meta_untouched() {
    let headers = Annotated::<Headers>::from_json(r#"[["x-a", "1"], ["X-A", "2"]]"#).unwrap();
    let mut map = Object::new();
    map.insert("X-A".to_string(), Annotated::new("2".to_string()));
    assert_eq!(headers, Annotated::new(Headers(map)));
    assert!(headers.1.original_value.is_none());
}

#[test]
fn unicode_blank_cookie_segment_is_skipped() {
    for ws in ['\u{85}', '\u{a0}', '\u{2003}', '\u{3000}'] {
        let text = format!("\"{};a=1\"", ws);
        let cookies = Annotated::<Cookies>::from_json(&text).unwrap();
        let mut map = Object::new();
        map.insert("a".to_string(), Annotated::new("1".to_string()));
        assert_eq!(cookies, Annotated::new(Cookies(map)));
        assert!(ws.is_whitespace());
    }
}
