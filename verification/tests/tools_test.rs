use co_worker_lite::api::agent::build_assistant_with_calls;
use co_worker_lite::tools::parser::parse;
use co_worker_lite::tools::{
    agent_preamble, filesystem_tools, render_tool_preamble, render_tool_response, ParsedToolCall,
    ToolResult,
};

fn json(text: &str) -> serde_json::Value {
    serde_json::from_str(text).unwrap()
}

#[test]
fn the_catalog_has_eight_tools() {
    let tools = filesystem_tools();
    let names: Vec<&str> = tools.iter().map(|t| t.function.name).collect();
    assert_eq!(
        names,
        vec![
            "list_dir", "read_file", "write_file", "append_file", "delete_path", "move_path",
            "create_dir", "search"
        ]
    );
    assert!(tools.iter().all(|t| t.kind == "function"));
    assert_eq!(
        tools[0].function.parameters,
        json(r#"{"type":"object","properties":{"path":{"type":"string","description":"Workspace-relative path. Use '.' for the workspace root."}},"required":["path"]}"#)
    );
    assert_eq!(
        tools[5].function.parameters,
        json(r#"{"type":"object","properties":{"from":{"type":"string"},"to":{"type":"string"}},"required":["from","to"]}"#)
    );
    assert_eq!(tools[7].function.parameters["properties"].as_object().unwrap().len(), 4);
    assert_eq!(tools[7].function.parameters["required"], json(r#"["query"]"#));
}

#[test]
fn the_preamble_lists_every_tool_on_a_line() {
    let tools = filesystem_tools();
    let s = render_tool_preamble(&tools, Some("/work"));
    assert!(s.starts_with("# Filesystem agent mode\n\nYou are operating as an autonomous coding agent. "));
    assert!(s.contains("7. After the runtime returns a tool result, decide whether more calls are needed."));
    assert!(s.contains("Workspace root (informational only; never include this prefix in tool arguments): `/work`\n\n"));
    assert!(s.ends_with("</tools>\n\nReturn each call as JSON within <tool_call></tool_call>:\n<tool_call>\n{\"name\": <function-name>, \"arguments\": <args-json-object>}\n</tool_call>\n"));
    let block = s.split("<tools>\n").nth(1).unwrap().split("</tools>").next().unwrap();
    let lines: Vec<&str> = block.lines().collect();
    assert_eq!(lines.len(), 8);
    assert!(lines[4].starts_with("{\"type\":\"function\",\"function\":{\"name\":\"delete_path\",\"description\":\"Delete a file"));
    for (line, t) in lines.iter().zip(&tools) {
        let v = json(line);
        assert_eq!(v["type"], "function");
        assert_eq!(v["function"]["name"], t.function.name);
        assert_eq!(v["function"]["description"], t.function.description);
        assert_eq!(v["function"]["parameters"], t.function.parameters);
    }
    assert!(!render_tool_preamble(&tools, None).contains("Workspace root"));
    assert_eq!(agent_preamble(Some("/work")), s);
    assert_eq!(agent_preamble(None), render_tool_preamble(&tools, None));
}

#[test]
fn results_are_quoted_for_the_model() {
    let r = ToolResult { id: "call_1".to_string(), ok: true, content: "a \"b\"\n".to_string() };
    assert_eq!(
        render_tool_response(&r),
        "<tool_response>\n{\"id\": \"call_1\", \"status\": \"ok\", \"content\": \"a \\\"b\\\"\\n\"}\n</tool_response>"
    );
    let r = ToolResult { id: "i".to_string(), ok: false, content: String::new() };
    assert_eq!(
        render_tool_response(&r),
        "<tool_response>\n{\"id\": \"i\", \"status\": \"error\", \"content\": \"\"}\n</tool_response>"
    );
}

#[test]
fn calls_are_written_out_as_canonical_json() {
    let call = |name: &str, args: &str| ParsedToolCall {
        id: "call_x".to_string(),
        name: name.to_string(),
        arguments: json(args),
    };
    let calls = vec![call("read_file", r#"{ "path" : "a" }"#), call("list_dir", "null")];
    let text = build_assistant_with_calls("Let me see.", &calls);
    assert_eq!(
        text,
        "Let me see.\n<tool_call>\n{\"arguments\":{\"path\":\"a\"},\"name\":\"read_file\"}\n</tool_call>\n<tool_call>\n{\"arguments\":null,\"name\":\"list_dir\"}\n</tool_call>"
    );
    let again = parse(&text);
    assert_eq!(again.prose, "Let me see.");
    assert_eq!(again.tool_calls.len(), 2);
    assert_eq!(again.tool_calls[0].arguments, calls[0].arguments);
    assert_eq!(build_assistant_with_calls("", &[]), "");
}
