use skills_manager::mcp_writers::json_span::{
    collect_members, find_member, object_start, value_span, MemberSpan,
};

fn slice(src: &str, span: MemberSpan) -> &str {
    &src[span.member_start..span.member_end]
}

fn value_text(src: &str, span: MemberSpan) -> &str {
    &src[span.value_start..span.value_end]
}

#[test]
fn finds_top_level_and_nested_member_spans() {
    let src = r#"{
  "mcp": {
    "zvec-grep-remote": { "type": "remote", "url": "http://127.0.0.1:7999/mcp" }
  },
  "provider": { "openai": { "apiKey": "nope" } }
}"#;
    let root = object_start(src, 0).unwrap();
    let mcp = find_member(src, root, "mcp").expect("mcp found");
    assert_eq!(value_text(src, mcp), "{\n    \"zvec-grep-remote\": { \"type\": \"remote\", \"url\": \"http://127.0.0.1:7999/mcp\" }\n  }");

    let entry = find_member(src, mcp.value_start, "zvec-grep-remote").expect("entry found");
    assert_eq!(
        value_text(src, entry),
        "{ \"type\": \"remote\", \"url\": \"http://127.0.0.1:7999/mcp\" }"
    );

    let url = find_member(src, entry.value_start, "url").expect("url found");
    assert_eq!(value_text(src, url), "\"http://127.0.0.1:7999/mcp\"");
    assert_eq!(
        slice(src, url),
        "\"url\": \"http://127.0.0.1:7999/mcp\""
    );
}

#[test]
fn absent_key_returns_none() {
    let src = r#"{"a": 1, "b": {"c": 2}}"#;
    assert!(find_member(src, 0, "zzz").is_none());
    // Nested-only keys must not match at the top level.
    assert!(find_member(src, 0, "c").is_none());
}

#[test]
fn keys_inside_string_values_do_not_match() {
    // "mcp" appears only inside a string value, with a quote-escaped form
    // and an escape-prefixed brace that must not confuse the scanner.
    let src = r#"{"a":"mcp","b":"say \"mcp\" now","c":"tail \\","d":[{"mcp":1}]}"#;
    assert!(find_member(src, 0, "mcp").is_none());
    // …and the members themselves are all still found.
    assert!(find_member(src, 0, "c").is_some());
    assert!(find_member(src, 0, "d").is_some());
}

#[test]
fn escaped_and_unicode_keys_match_decoded_form() {
    let src = "{ \"mc\\u0070\": 1, \"\\u65e5\\u672c\": 2 }";
    let mcp = find_member(src, 0, "mcp").expect("escape-decoded key matches");
    assert_eq!(value_text(src, mcp), "1");
    let jp = find_member(src, 0, "\u{65e5}\u{672c}").expect("unicode key matches");
    assert_eq!(value_text(src, jp), "2");
    // Raw text must not match the escaped form literally.
    assert!(find_member(src, 0, "mc\\u0070").is_none());
}

#[test]
fn unicode_values_keep_exact_spans() {
    let src = "{ \"url\": \"http://x/日本\u{1F600}\", \"m\": 0 }";
    let url = find_member(src, 0, "url").unwrap();
    assert_eq!(value_text(src, url), "\"http://x/日本\u{1F600}\"");
}

#[test]
fn literal_and_array_value_spans() {
    let src = r#"{"n": -12.5e3, "t": true, "f":false, "z": null, "arr": [[1, {"x":"y"}], "]"], "mcp": {}}"#;
    for (key, want) in [
        ("n", "-12.5e3"),
        ("t", "true"),
        ("f", "false"),
        ("z", "null"),
        ("arr", r#"[[1, {"x":"y"}], "]"]"#),
        ("mcp", "{}"),
    ] {
        let m = find_member(src, 0, key).unwrap_or_else(|| panic!("member {key}"));
        assert_eq!(value_text(src, m), want, "value span for {key}");
    }
}

#[test]
fn nested_brackets_and_quotes_in_arrays_are_balanced() {
    // The string "]" contains a bracket byte; depth counting must ignore it.
    let src = r#"{"list": ["{", "[", "]", "\""], "after": 1}"#;
    let list = find_member(src, 0, "list").unwrap();
    assert_eq!(
        value_text(src, list),
        r#"["{", "[", "]", "\""]"#
    );
    let after = find_member(src, 0, "after").unwrap();
    assert_eq!(value_text(src, after), "1");
}

#[test]
fn empty_and_malformed_objects() {
    assert!(find_member("{}", 0, "any").is_none());
    assert!(find_member("{  }", 1, "any").is_none());
    // Trailing comma: malformed → no result (writers pre-parse strictly,
    // so this only guards against scanner misbehavior).
    assert!(collect_members(r#"{"a":1,}"#, 0).is_none());
    assert!(collect_members(r#"[1,2]"#, 0).is_none());
}

#[test]
fn collect_members_returns_all_in_order() {
    let src = r#"{ "b": 1, "a": {"nested": 0}, "c": [2] }"#;
    let members = collect_members(src, 0).unwrap();
    let keys: Vec<&str> = members
        .iter()
        .map(|m| &src[m.member_start + 1..m.member_start + 2])
        .collect();
    assert_eq!(keys, vec!["b", "a", "c"]);
    assert_eq!(members[1].member_end, members[1].value_end);
}

#[test]
fn object_start_skips_leading_whitespace() {
    let src = "\n\n  {\"a\":1}";
    assert_eq!(object_start(src, 0), Some(4));
    assert_eq!(find_member(src, object_start(src, 0).unwrap(), "a").unwrap().value_end, src.len() - 1);
    assert_eq!(object_start("[1]", 0), None);
}

#[test]
fn brackets_close_their_own_kind() {
    assert!(collect_members(r#"{"a":[}}"#, 0).is_none());
    assert!(collect_members(r#"{"a":{]}"#, 0).is_none());
    assert!(collect_members(r#"{"a":[{]}]}"#, 0).is_none());
    assert!(value_span("[}", 0).is_none());
    assert!(value_span("]", 0).is_none());
    assert_eq!(value_span(r#" [{"a":"]}"},[]] "#, 0), Some((1, 16)));
    assert_eq!(collect_members(r#"{"a":[{}],"b":{"c":[]}}"#, 0).unwrap().len(), 2);
}

#[test]
fn objects_in_lists_are_found_too() {
    let src = r#"{"list":[{"a":1},{"b":{"deep":"x{"}}]}"#;
    let second = src.find(r#"{"b""#).unwrap();
    let b = find_member(src, second, "b").unwrap();
    let deep = find_member(src, b.value_start, "deep").unwrap();
    assert_eq!(value_text(src, deep), r#""x{""#);
    assert!(find_member(src, second, "deep").is_none());
}
