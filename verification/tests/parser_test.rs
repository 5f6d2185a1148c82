use co_worker_lite::api::agent::build_assistant_with_calls;
use co_worker_lite::tools::call_id;
use co_worker_lite::tools::parser::{
    call_from_fields, make_call, object_keys, parse, parse_one_body, CallBody, Field,
};

#[test]
fn extracts_single_tool_call() {
    let text = r#"Let me check that file.
<tool_call>
{"name": "read_file", "arguments": {"path": "src/main.rs"}}
</tool_call>"#;
    let out = parse(text);
    assert_eq!(out.tool_calls.len(), 1);
    assert_eq!(out.tool_calls[0].name, "read_file");
    assert_eq!(out.tool_calls[0].arguments["path"], "src/main.rs");
    assert_eq!(out.prose.trim(), "Let me check that file.");
}

#[test]
fn extracts_multiple_calls() {
    let text = r#"<tool_call>{"name":"list_dir","arguments":{"path":"."}}</tool_call>
between
<tool_call>{"name":"read_file","arguments":{"path":"a.txt"}}</tool_call>
tail"#;
    let out = parse(text);
    assert_eq!(out.tool_calls.len(), 2);
    assert_eq!(out.tool_calls[0].name, "list_dir");
    assert_eq!(out.tool_calls[1].name, "read_file");
    assert!(out.prose.contains("between"));
    assert!(out.prose.contains("tail"));
}

#[test]
fn malformed_body_is_left_as_prose() {
    let text = r#"<tool_call>not json</tool_call>after"#;
    let out = parse(text);
    assert_eq!(out.tool_calls.len(), 0);
    assert!(out.prose.contains("not json"));
    assert!(out.prose.ends_with("after"));
}

#[test]
fn unterminated_block_is_preserved() {
    let text = "preface <tool_call>still talking";
    let out = parse(text);
    assert_eq!(out.tool_calls.len(), 0);
    assert!(out.prose.contains("preface"));
    assert!(out.prose.contains("still talking"));
}

#[test]
fn pure_prose_passes_through() {
    let out = parse("hello world");
    assert_eq!(out.tool_calls.len(), 0);
    assert_eq!(out.prose, "hello world");
}

#[test]
fn tolerates_codefence_wrappers() {
    let text = "<tool_call>```json\n{\"name\":\"list_dir\",\"arguments\":{\"path\":\".\"}}\n```</tool_call>";
    let out = parse(text);
    assert_eq!(out.tool_calls.len(), 1);
    assert_eq!(out.tool_calls[0].name, "list_dir");
}

#[test]
fn fenced_json_fallback_extracts_tool_call() {
    // Real-world output from Qwen2.5-Coder-7B with no <tool_call> tags.
    let text = "```json\n{\"name\": \"write_file\", \"arguments\": {\"path\": \"intisharul.txt\", \"content\": \"intisharul\"}}\n```";
    let out = parse(text);
    assert_eq!(out.tool_calls.len(), 1);
    assert_eq!(out.tool_calls[0].name, "write_file");
    assert_eq!(out.tool_calls[0].arguments["path"], "intisharul.txt");
    assert_eq!(out.prose, "");
}

#[test]
fn fenced_json_with_surrounding_prose() {
    let text = "Sure, I'll do that.\n\n```json\n{\"name\": \"list_dir\", \"arguments\": {\"path\": \".\"}}\n```\n\nLet me know.";
    let out = parse(text);
    assert_eq!(out.tool_calls.len(), 1);
    assert_eq!(out.tool_calls[0].name, "list_dir");
    // Prose is preserved around the extracted block.
    assert!(out.prose.contains("Sure"));
    assert!(out.prose.contains("Let me know"));
}

#[test]
fn fenced_json_without_tool_shape_stays_prose() {
    // The model is showing the user an example JSON, not a tool call.
    let text = "Here's an example:\n```json\n{\"hello\": \"world\"}\n```";
    let out = parse(text);
    assert_eq!(out.tool_calls.len(), 0);
    assert!(out.prose.contains("```json"));
}

#[test]
fn xml_block_takes_precedence_over_fences() {
    // If both formats coexist, prefer the canonical one (don't extract twice).
    let text = "<tool_call>{\"name\":\"a\",\"arguments\":{}}</tool_call>\n```json\n{\"name\":\"b\",\"arguments\":{}}\n```";
    let out = parse(text);
    assert_eq!(out.tool_calls.len(), 1);
    assert_eq!(out.tool_calls[0].name, "a");
}

#[test]
fn fenced_ndjson_extracts_multiple_calls() {
    // The exact payload Qwen2.5-Coder-7B produces when asked to scaffold
    // a Rust project: four objects, one per line, in one ```json fence.
    let text = "```json\n\
        {\"name\": \"create_dir\", \"arguments\": {\"path\": \"demo\"}}\n\
        {\"name\": \"create_dir\", \"arguments\": {\"path\": \"demo/src\"}}\n\
        {\"name\": \"write_file\", \"arguments\": {\"path\": \"demo/Cargo.toml\", \"content\": \"[package]\\nname = \\\"demo\\\"\\n\"}}\n\
        {\"name\": \"write_file\", \"arguments\": {\"path\": \"demo/src/main.rs\", \"content\": \"fn main() {}\"}}\n\
        ```";
    let out = parse(text);
    assert_eq!(out.tool_calls.len(), 4);
    assert_eq!(out.tool_calls[0].name, "create_dir");
    assert_eq!(out.tool_calls[1].arguments["path"], "demo/src");
    assert_eq!(out.tool_calls[2].name, "write_file");
    assert_eq!(out.tool_calls[3].arguments["path"], "demo/src/main.rs");
    assert_eq!(out.prose, "");
}

#[test]
fn fenced_json_array_extracts_multiple_calls() {
    // Some models wrap calls in a JSON array instead of NDJSON.
    let text = "```json\n[\
        {\"name\":\"a\",\"arguments\":{}},\
        {\"name\":\"b\",\"arguments\":{}}\
    ]\n```";
    let out = parse(text);
    assert_eq!(out.tool_calls.len(), 2);
    assert_eq!(out.tool_calls[0].name, "a");
    assert_eq!(out.tool_calls[1].name, "b");
}

#[test]
fn extracted_calls_get_distinct_ids() {
    let out = parse("<tool_call>{\"name\":\"a\"}</tool_call><tool_call>{\"name\":\"a\"}</tool_call>");
    assert_eq!(out.tool_calls.len(), 2);
    assert!(out.tool_calls[0].id.starts_with("call_"));
    assert_eq!(out.tool_calls[0].id.len(), 37);
    assert_ne!(out.tool_calls[0].id, out.tool_calls[1].id);
    assert!(out.tool_calls[0].arguments.is_null());
}

#[test]
fn call_ids_spell_the_uuid() {
    assert_eq!(call_id(0x0123456789abcdef0011223344556677), "call_0123456789abcdef0011223344556677");
    let body = CallBody { name: "x".to_string(), arguments: serde_json::Value::Bool(true) };
    let call = make_call(body, 1);
    assert_eq!(call.id, "call_00000000000000000000000000000001");
    assert_eq!(call.name, "x");
    assert_eq!(call.arguments, serde_json::Value::Bool(true));
}

#[test]
fn only_the_first_call_of_a_block_counts() {
    let calls = parse_one_body("[{\"name\":\"a\"},{\"name\":\"b\"}]");
    assert_eq!(calls.len(), 1);
    assert_eq!(calls[0].name, "a");
    assert!(parse_one_body("{\"arguments\":{}}").is_empty());
}

#[test]
fn objects_may_be_separated_by_commas() {
    let text = "```json\n{\"name\":\"a\",\"arguments\":{\"x\":\",}{\"}},\n{\"name\":\"b\"} ,{\"name\":\"c\"}\n```";
    let out = parse(text);
    let names: Vec<&str> = out.tool_calls.iter().map(|c| c.name.as_str()).collect();
    assert_eq!(names, ["a", "b", "c"]);
    assert_eq!(out.tool_calls[0].arguments["x"], ",}{");
    assert_eq!(out.prose, "");
}

#[test]
fn an_array_of_strings_is_no_call() {
    let text = "```json\n[\"name\", \"arguments\"]\n```";
    let out = parse(text);
    assert!(out.tool_calls.is_empty());
    assert!(out.prose.contains("[\"name\", \"arguments\"]"));
}

#[test]
fn what_is_built_is_parsed_back() {
    let mut arguments = serde_json::Map::new();
    arguments.insert("path".to_string(), serde_json::Value::String("a \"b\"\n<tool".to_string()));
    arguments.insert("content".to_string(), serde_json::Value::String("{}, []".to_string()));
    let first = CallBody {
        name: "write_file".to_string(),
        arguments: serde_json::Value::Object(arguments.clone()),
    };
    let second = CallBody {
        name: "list_dir".to_string(),
        arguments: serde_json::Value::Object(serde_json::Map::new()),
    };
    let calls = vec![make_call(first, 1), make_call(second, 2)];
    let text = build_assistant_with_calls("Let me see.", &calls);
    let out = parse(&text);
    assert_eq!(out.prose, "Let me see.");
    assert_eq!(out.tool_calls.len(), 2);
    assert_eq!(out.tool_calls[0].name, "write_file");
    assert_eq!(out.tool_calls[0].arguments, serde_json::Value::Object(arguments));
    assert_eq!(out.tool_calls[1].name, "list_dir");
}

/// A canonical block with the given body.
fn block(body: &str) -> String {
    format!("<tool_call>{body}</tool_call>")
}

#[test]
fn other_fields_may_hold_what_cannot_be_read() {
    let deep = format!("{}{}", "[".repeat(300), "]".repeat(300));
    for odd in ["1e999", "\"\\ud800\"", deep.as_str(), "{\"a\":[1e999,{}]}"] {
        let body = format!("{{\"note\":{odd},\"name\":\"a\",\"arguments\":{{\"x\":\"y,{{\"}}}}");
        let out = parse(&block(&body));
        assert_eq!(out.tool_calls.len(), 1, "{odd}");
        assert_eq!(out.tool_calls[0].name, "a");
        assert_eq!(out.tool_calls[0].arguments["x"], "y,{");
        assert_eq!(out.prose, "");
    }
    let out = parse(&block("{\"name\":\"a\",\"note\":1e999,\"note\":2}"));
    assert_eq!(out.tool_calls.len(), 1);
    assert!(out.tool_calls[0].arguments.is_null());
}

#[test]
fn a_call_itself_has_to_be_readable() {
    for body in [
        "{\"name\":\"a\",\"arguments\":1e999}",
        "{\"name\":\"\\ud800\",\"arguments\":{}}",
        "{\"note\":1e999,\"name\":1}",
        "{\"note\":1e999,\"arguments\":{}}",
        "{\"note\":1e999,\"name\":\"a\",\"name\":\"b\"}",
        "{\"note\":1e999,\"n\\u0061me\":\"a\",\"name\":\"b\"}",
        "{\"arguments\":1e999,\"name\":\"a\",\"arguments\":{}}",
        "{\"note\":1e999,\"name\":\"a\"} x",
    ] {
        let out = parse(&block(body));
        assert!(out.tool_calls.is_empty(), "{body}");
        assert_eq!(out.prose, block(body));
    }
}

#[test]
fn arguments_are_read_at_their_depth() {
    let nested = |n: usize| format!("{}{}", "[".repeat(n), "]".repeat(n));
    for (n, calls) in [(126, 1), (127, 0)] {
        let plain = format!("{{\"name\":\"a\",\"arguments\":{}}}", nested(n));
        let odd = format!("{{\"note\":1e999,\"name\":\"a\",\"arguments\":{}}}", nested(n));
        assert_eq!(parse(&block(&plain)).tool_calls.len(), calls, "{n}");
        assert_eq!(parse(&block(&odd)).tool_calls.len(), calls, "{n}");
    }
}

#[test]
fn of_readable_fields_the_last_counts() {
    let out = parse(&block("{\"name\":\"a\",\"name\":\"b\"}"));
    assert_eq!(out.tool_calls.len(), 1);
    assert_eq!(out.tool_calls[0].name, "b");
}

#[test]
fn keys_are_found_as_they_are_written() {
    let text = " { \"a\" : \"b,{\\\"c\" , \"d\\\"\":[{\"e\":1},\"f\"],\"a\":{} }";
    assert_eq!(object_keys(text), ["\"a\"", "\"d\\\"\"", "\"a\""]);
    assert!(object_keys("{}").is_empty());
}

#[test]
fn a_name_and_arguments_make_a_call() {
    let name = || Field::Read(serde_json::Value::String("a".to_string()));
    let c = call_from_fields(false, name(), Field::Missing).unwrap();
    assert_eq!((c.name.as_str(), c.arguments.is_null()), ("a", true));
    let c = call_from_fields(false, name(), Field::Read(serde_json::Value::Bool(true))).unwrap();
    assert_eq!(c.arguments, true);
    assert!(call_from_fields(true, name(), Field::Missing).is_none());
    assert!(call_from_fields(false, name(), Field::Unreadable).is_none());
    assert!(call_from_fields(false, Field::Missing, Field::Missing).is_none());
    assert!(call_from_fields(false, Field::Unreadable, Field::Missing).is_none());
    let number = Field::Read(serde_json::Value::Bool(true));
    assert!(call_from_fields(false, number, Field::Missing).is_none());
}

#[test]
fn an_array_that_a_string_spells_is_no_array() {
    let text = "{\"$serde_json::private::RawValue\":\"[{\\\"name\\\":\\\"a\\\"}]\"}";
    assert!(parse(&block(text)).tool_calls.is_empty());
    let text = "{\"$serde_json::private::RawValue\":\"1\",\"name\":\"a\"}";
    assert_eq!(parse(&block(text)).tool_calls.len(), 1);
}
