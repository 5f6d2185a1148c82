//! Tool catalog and protocol of the agent loop.
//!
//! Tools are declared to the model here, and the calls it makes are read from its
//! output. They are run by the client, which holds the workspace.
//!
//! A call looks like this:
//!
//! ```text
//! <tool_call>
//! {"name": "<fn>", "arguments": {...}}
//! </tool_call>
//! ```

use vstd::prelude::*;
use vstd::string::*;

use crate::ids;
use crate::ids::uuid_simple;
use crate::json;
use crate::text;
use crate::json::{json_array, json_object, json_string, json_text_of, push_field, write_json, Json};

pub mod markup;
pub mod parser;

verus! {

/// The id of the tool call that was given the UUID `id`.
pub open spec fn call_id_text(id: u128) -> Seq<char> {
    "call_"@ + ids::hex_digits(id as nat, 32)
}

/// The id of the tool call that was given the UUID `id`.
pub fn call_id(id: u128) -> (out: String)
    ensures
        out@ == call_id_text(id),
{
    let mut out = "call_".to_owned();
    out.append(uuid_simple(id).as_str());
    out
}

/// Structured tool call extracted from model output.
#[derive(Debug, Clone)]
pub struct ParsedToolCall {
    /// Synthetic id, so that the client can match a result back to a call (the
    /// model produces none).
    pub id: String,
    pub name: String,
    pub arguments: serde_json::Value,
}

/// What the client returns after running a tool. `ok` is false where the call
/// failed or the user denied it; `content` explains either case in a few words.
#[derive(Debug, Clone)]
pub struct ToolResult {
    pub id: String,
    pub ok: bool,
    pub content: String,
}

// ---------------------------------------------------------------------------
// The catalog
// ---------------------------------------------------------------------------

/// One tool as the model sees it.
#[derive(Debug, Clone)]
pub struct ToolDefinition {
    pub kind: &'static str,
    pub function: ToolFunction,
}

#[derive(Debug, Clone)]
pub struct ToolFunction {
    pub name: &'static str,
    pub description: &'static str,
    /// JSON Schema of the arguments.
    pub parameters: serde_json::Value,
}

/// One argument of a tool.
#[derive(Debug, Clone, Copy)]
pub struct Property {
    pub name: &'static str,
    pub kind: &'static str,
    pub description: Option<&'static str>,
}

/// A tool with its texts as characters.
pub struct ToolView {
    pub kind: Seq<char>,
    pub name: Seq<char>,
    pub description: Seq<char>,
    pub parameters: Json,
}

impl View for ToolDefinition {
    type V = ToolView;

    open spec fn view(&self) -> ToolView {
        ToolView {
            kind: self.kind@,
            name: self.function.name@,
            description: self.function.description@,
            parameters: json::json_view(self.function.parameters),
        }
    }
}

/// The tools of a list.
pub open spec fn tool_views(tools: Seq<ToolDefinition>) -> Seq<ToolView> {
    tools.map_values(|t: ToolDefinition| t@)
}

/// What the schema says of one argument: its type, and its description where it has
/// one.
pub open spec fn property_schema(p: Property) -> Json {
    Json::Object(
        json::pairs_object(
            match p.description {
                Some(d) => seq![("type"@, Json::Text(p.kind@)), ("description"@, Json::Text(d@))],
                None => seq![("type"@, Json::Text(p.kind@))],
            },
        ),
    )
}

/// The arguments of a schema, each under its name.
pub open spec fn property_fields(properties: Seq<Property>) -> Seq<(Seq<char>, Json)> {
    properties.map_values(|p: Property| (p.name@, property_schema(p)))
}

/// Names, as JSON.
pub open spec fn name_list(names: Seq<&'static str>) -> Json {
    Json::Array(names.map_values(|s: &'static str| Json::Text(s@)))
}

/// The JSON Schema of the arguments of a tool.
pub open spec fn schema(properties: Seq<Property>, required: Seq<&'static str>) -> Json {
    Json::Object(
        json::pairs_object(
            seq![
                ("type"@, Json::Text("object"@)),
                ("properties"@, Json::Object(json::pairs_object(property_fields(properties)))),
                ("required"@, name_list(required)),
            ],
        ),
    )
}

/// A function that the model may call.
pub open spec fn function_tool(
    name: &'static str,
    description: &'static str,
    properties: Seq<Property>,
    required: Seq<&'static str>,
) -> ToolView {
    ToolView {
        kind: "function"@,
        name: name@,
        description: description@,
        parameters: schema(properties, required),
    }
}

/// An argument.
pub open spec fn arg(
    name: &'static str,
    kind: &'static str,
    description: Option<&'static str>,
) -> Property {
    Property { name, kind, description }
}

/// The filesystem tools offered to the agent.
pub open spec fn filesystem_catalog() -> Seq<ToolView> {
    seq![
        function_tool(
            "list_dir",
            "List entries in a directory inside the workspace. Returns names and whether each is a file or directory.",
            seq![arg("path", "string", Some("Workspace-relative path. Use '.' for the workspace root."))],
            seq!["path"],
        ),
        function_tool(
            "read_file",
            "Read a UTF-8 text file from the workspace. Caps at 256 KiB by default; bump max_bytes for larger files.",
            seq![arg("path", "string", Some("Workspace-relative file path.")), arg("max_bytes", "integer", Some("Optional byte cap. Default 262144."))],
            seq!["path"],
        ),
        function_tool(
            "write_file",
            "Overwrite or create a UTF-8 text file inside the workspace. The user MUST approve every call.",
            seq![arg("path", "string", None), arg("content", "string", None)],
            seq!["path", "content"],
        ),
        function_tool(
            "append_file",
            "Append text to an existing file. Creates the file if it does not exist. Requires user approval.",
            seq![arg("path", "string", None), arg("content", "string", None)],
            seq!["path", "content"],
        ),
        function_tool(
            "delete_path",
            "Delete a file, or an empty directory. Refuses on non-empty directories. Requires user approval.",
            seq![arg("path", "string", None)],
            seq!["path"],
        ),
        function_tool(
            "move_path",
            "Rename or move a path within the workspace. Requires user approval.",
            seq![arg("from", "string", None), arg("to", "string", None)],
            seq!["from", "to"],
        ),
        function_tool(
            "create_dir",
            "Create a directory (and any missing parents) inside the workspace. Requires user approval.",
            seq![arg("path", "string", None)],
            seq!["path"],
        ),
        function_tool(
            "search",
            "Search file contents under the workspace for a substring or simple pattern. Returns up to `max_results` matching lines with their paths and line numbers. Case-sensitive by default.",
            seq![arg("query", "string", Some("Plain-text substring to search for. Not a regex.")), arg("path", "string", Some("Optional workspace-relative subdirectory to scope the search. Defaults to the workspace root.")), arg("max_results", "integer", Some("Cap on returned matches. Default 100; hard ceiling 1000.")), arg("case_insensitive", "boolean", Some("If true, fold case before comparing. Default false."))],
            seq!["query"],
        ),
    ]
}

/// What the schema says of one argument.
fn property_value(p: &Property) -> (v: serde_json::Value)
    ensures
        json::json_view(v) == property_schema(*p),
{
    let mut fields: Vec<(String, serde_json::Value)> = Vec::new();
    assert(json::pair_views(fields@) =~= Seq::empty());
    push_field(&mut fields, "type", json_string(p.kind));
    assert(json::pair_views(fields@) =~= seq![("type"@, Json::Text(p.kind@))]);
    proof {
        reveal_strlit("type");
        reveal_strlit("description");
        assert("type"@.len() != "description"@.len());
    }
    if let Some(d) = p.description {
        push_field(&mut fields, "description", json_string(d));
        assert(json::pair_views(fields@) =~= seq![
            ("type"@, Json::Text(p.kind@)),
            ("description"@, Json::Text(d@)),
        ]);
    }
    json_object(fields)
}

/// No two arguments have the same name, and none has a reserved one.
pub open spec fn well_named(properties: Seq<Property>) -> bool {
    &&& forall|i: int, j: int|
        0 <= i < j < properties.len() ==> (#[trigger] properties[i]).name@ != (
        #[trigger] properties[j]).name@
    &&& forall|i: int|
        0 <= i < properties.len() ==> !json::is_reserved((#[trigger] properties[i]).name@)
}

/// The JSON Schema of the arguments of a tool.
fn schema_value(properties: &Vec<Property>, required: &Vec<&'static str>) -> (v: serde_json::Value)
    requires
        well_named(properties@),
    ensures
        json::json_view(v) == schema(properties@, required@),
{
    let mut inner: Vec<(String, serde_json::Value)> = Vec::new();
    let mut i: usize = 0;
    assert(json::pair_views(inner@) =~= property_fields(properties@.take(0)));
    while i < properties.len()
        invariant
            i <= properties@.len(),
            json::pair_views(inner@) == property_fields(properties@.take(i as int)),
        decreases properties@.len() - i,
    {
        push_field(&mut inner, properties[i].name, property_value(&properties[i]));
        assert(property_fields(properties@.take(i + 1)) =~= property_fields(
            properties@.take(i as int),
        ).push((properties@[i as int].name@, property_schema(properties@[i as int]))));
        i = i + 1;
    }
    assert(properties@.take(properties@.len() as int) =~= properties@);
    let mut names: Vec<serde_json::Value> = Vec::new();
    let mut k: usize = 0;
    while k < required.len()
        invariant
            k <= required@.len(),
            names@.len() == k,
            forall|j: int|
                0 <= j < k ==> json::json_view(#[trigger] names@[j]) == Json::Text(required@[j]@),
        decreases required@.len() - k,
    {
        names.push(json_string(required[k]));
        k = k + 1;
    }
    assert(Json::Array(json::json_views(names@)) == name_list(required@)) by {
        assert(json::json_views(names@) =~= required@.map_values(|s: &'static str| Json::Text(s@)));
    }
    let mut fields: Vec<(String, serde_json::Value)> = Vec::new();
    assert(json::pair_views(fields@) =~= Seq::empty());
    proof {
        let all = property_fields(properties@);
        assert forall|i: int, j: int| 0 <= i < j < all.len() implies (#[trigger] all[i]).0 != (
        #[trigger] all[j]).0 by {
            assert(properties@[i].name@ != properties@[j].name@);
        }
        lemma_schema_keys();
    }
    push_field(&mut fields, "type", json_string("object"));
    push_field(&mut fields, "properties", json_object(inner));
    push_field(&mut fields, "required", json_array(names));
    assert(json::pair_views(fields@) =~= seq![
        ("type"@, Json::Text("object"@)),
        ("properties"@, Json::Object(json::pairs_object(property_fields(properties@)))),
        ("required"@, name_list(required@)),
    ]);
    json_object(fields)
}

/// A function that the model may call.
fn define_tool(
    name: &'static str,
    description: &'static str,
    properties: Vec<Property>,
    required: Vec<&'static str>,
) -> (t: ToolDefinition)
    requires
        well_named(properties@),
    ensures
        t@ == function_tool(name, description, properties@, required@),
        json::readable(t@.parameters),
{
    proof {
        lemma_schema_readable(properties@, required@);
    }
    ToolDefinition {
        kind: "function",
        function: ToolFunction {
            name,
            description,
            parameters: schema_value(&properties, &required),
        },
    }
}

/// An argument.
fn define_arg(name: &'static str, kind: &'static str, description: Option<&'static str>) -> (p:
    Property)
    ensures
        p == arg(name, kind, description),
{
    Property { name, kind, description }
}

/// The filesystem tools offered to the agent.
pub fn filesystem_tools() -> (tools: Vec<ToolDefinition>)
    ensures
        tool_views(tools@) == filesystem_catalog(),
{
    proof {
        lemma_argument_names();
    }
    let properties = vec![define_arg("path", "string", Some("Workspace-relative path. Use '.' for the workspace root."))];
    let required: Vec<&'static str> = vec!["path"];
    assert(properties@ =~= seq![arg("path", "string", Some("Workspace-relative path. Use '.' for the workspace root."))]);
    assert(required@ =~= seq!["path"]);
    let list_dir = define_tool(
        "list_dir",
        "List entries in a directory inside the workspace. Returns names and whether each is a file or directory.",
        properties,
        required,
    );
    let properties = vec![define_arg("path", "string", Some("Workspace-relative file path.")), define_arg("max_bytes", "integer", Some("Optional byte cap. Default 262144."))];
    let required: Vec<&'static str> = vec!["path"];
    assert(properties@ =~= seq![arg("path", "string", Some("Workspace-relative file path.")), arg("max_bytes", "integer", Some("Optional byte cap. Default 262144."))]);
    assert(required@ =~= seq!["path"]);
    let read_file = define_tool(
        "read_file",
        "Read a UTF-8 text file from the workspace. Caps at 256 KiB by default; bump max_bytes for larger files.",
        properties,
        required,
    );
    let properties = vec![define_arg("path", "string", None), define_arg("content", "string", None)];
    let required: Vec<&'static str> = vec!["path", "content"];
    assert(properties@ =~= seq![arg("path", "string", None), arg("content", "string", None)]);
    assert(required@ =~= seq!["path", "content"]);
    let write_file = define_tool(
        "write_file",
        "Overwrite or create a UTF-8 text file inside the workspace. The user MUST approve every call.",
        properties,
        required,
    );
    let properties = vec![define_arg("path", "string", None), define_arg("content", "string", None)];
    let required: Vec<&'static str> = vec!["path", "content"];
    assert(properties@ =~= seq![arg("path", "string", None), arg("content", "string", None)]);
    assert(required@ =~= seq!["path", "content"]);
    let append_file = define_tool(
        "append_file",
        "Append text to an existing file. Creates the file if it does not exist. Requires user approval.",
        properties,
        required,
    );
    let properties = vec![define_arg("path", "string", None)];
    let required: Vec<&'static str> = vec!["path"];
    assert(properties@ =~= seq![arg("path", "string", None)]);
    assert(required@ =~= seq!["path"]);
    let delete_path = define_tool(
        "delete_path",
        "Delete a file, or an empty directory. Refuses on non-empty directories. Requires user approval.",
        properties,
        required,
    );
    let properties = vec![define_arg("from", "string", None), define_arg("to", "string", None)];
    let required: Vec<&'static str> = vec!["from", "to"];
    assert(properties@ =~= seq![arg("from", "string", None), arg("to", "string", None)]);
    assert(required@ =~= seq!["from", "to"]);
    let move_path = define_tool(
        "move_path",
        "Rename or move a path within the workspace. Requires user approval.",
        properties,
        required,
    );
    let properties = vec![define_arg("path", "string", None)];
    let required: Vec<&'static str> = vec!["path"];
    assert(properties@ =~= seq![arg("path", "string", None)]);
    assert(required@ =~= seq!["path"]);
    let create_dir = define_tool(
        "create_dir",
        "Create a directory (and any missing parents) inside the workspace. Requires user approval.",
        properties,
        required,
    );
    let properties = vec![define_arg("query", "string", Some("Plain-text substring to search for. Not a regex.")), define_arg("path", "string", Some("Optional workspace-relative subdirectory to scope the search. Defaults to the workspace root.")), define_arg("max_results", "integer", Some("Cap on returned matches. Default 100; hard ceiling 1000.")), define_arg("case_insensitive", "boolean", Some("If true, fold case before comparing. Default false."))];
    let required: Vec<&'static str> = vec!["query"];
    assert(properties@ =~= seq![arg("query", "string", Some("Plain-text substring to search for. Not a regex.")), arg("path", "string", Some("Optional workspace-relative subdirectory to scope the search. Defaults to the workspace root.")), arg("max_results", "integer", Some("Cap on returned matches. Default 100; hard ceiling 1000.")), arg("case_insensitive", "boolean", Some("If true, fold case before comparing. Default false."))]);
    assert(required@ =~= seq!["query"]);
    let search = define_tool(
        "search",
        "Search file contents under the workspace for a substring or simple pattern. Returns up to `max_results` matching lines with their paths and line numbers. Case-sensitive by default.",
        properties,
        required,
    );
    let tools = vec![list_dir, read_file, write_file, append_file, delete_path, move_path, create_dir, search];
    assert(tool_views(tools@) =~= filesystem_catalog());
    tools
}

// ---------------------------------------------------------------------------
// Telling the model about the tools
// ---------------------------------------------------------------------------

/// The rules of the agent.
pub const AGENT_RULES: &'static str = "# Filesystem agent mode\n\n\
You are operating as an autonomous coding agent. The user has granted you \
direct, runtime access to a workspace on their machine via the tools listed below. \
The runtime executes each tool you call and returns its result to you on the \
next turn.\n\n\
## CRITICAL RULES — follow them exactly\n\n\
1. When the user asks you to create, modify, read, move, search, or delete \
files, you MUST use the provided tools. Emit `<tool_call>` blocks; do NOT \
output shell commands as a response.\n\
2. NEVER suggest shell commands like `cargo new ...`, `echo ... > file`, \
`mkdir`, `rm`, or `mv` for the user to run. Those are not how you operate. \
Use the tools directly.\n\
3. NEVER ask 'would you like to proceed?' or 'shall I do this?' before \
calling a tool. Just call it. The runtime asks the human for explicit \
permission on mutating calls (`write_file`, `append_file`, `delete_path`, \
`move_path`, `create_dir`); you do not need to.\n\
4. You do NOT have a shell. There is no `run_command`, no `exec`, no way \
to invoke `cargo`, `flutter`, `npm`, `git`, or any other CLI. If a task \
genuinely requires running such a command (e.g. `flutter create demo`, \
`cargo new demo`, `npm init`), do NOT try to fake it by hand-writing \
project files — that produces broken scaffolds. Instead, reply in prose: \
state which command the user should run themselves, explain why you can't, \
and offer to take over once they have the project on disk.\n\
5. Compose multiple tool calls when needed. Example — adding a simple \
file to an existing crate is:\n\
   - `read_file` with `{\"path\": \"Cargo.toml\"}` to inspect what's there\n\
   - `write_file` to create the new source file.\n\
6. All path arguments are RELATIVE to the workspace root. Use `.` for the \
root itself. Do not include the absolute path the runtime mentions below.\n\
7. After the runtime returns a tool result, decide whether more calls are \
needed. When you have nothing left to do, reply to the user in plain prose \
summarizing what you did.\n\n";

/// What stands before and after the root of the workspace.
pub const WORKSPACE_LEAD: &'static str = "Workspace root (informational only; never include this prefix in tool arguments): `";

pub const WORKSPACE_TAIL: &'static str = "`\n\n";

/// What stands before the list of tools.
pub const TOOLS_LEAD: &'static str = "Function signatures (JSON Schema) within <tools></tools>:\n<tools>\n";

/// What stands after the list of tools.
pub const TOOLS_TAIL: &'static str = "</tools>\n\nReturn each call as JSON within <tool_call></tool_call>:\n\
<tool_call>\n{\"name\": <function-name>, \"arguments\": <args-json-object>}\n</tool_call>\n";

/// One tool on one line: its fields as JSON, in the order of their declaration.
/// `None` where a field cannot be written.
pub open spec fn tool_line(t: ToolView) -> Option<Seq<char>> {
    match (
        json::json_text(Json::Text(t.kind)),
        json::json_text(Json::Text(t.name)),
        json::json_text(Json::Text(t.description)),
        json::json_text(t.parameters),
    ) {
        (Ok(kind), Ok(name), Ok(description), Ok(parameters)) => Some(
            "{\"type\":"@ + kind + ",\"function\":{\"name\":"@ + name + ",\"description\":"@
                + description + ",\"parameters\":"@ + parameters + "}}"@,
        ),
        _ => None,
    }
}

/// The tools, one on each line. One that cannot be written is left out.
pub open spec fn tool_lines(tools: Seq<ToolView>) -> Seq<char>
    decreases tools.len(),
{
    if tools.len() == 0 {
        Seq::empty()
    } else {
        match tool_line(tools.last()) {
            Some(line) => tool_lines(tools.drop_last()) + line + "\n"@,
            None => tool_lines(tools.drop_last()),
        }
    }
}

/// A text has the line of a tool.
pub open spec fn declares(preamble: Seq<char>, t: ToolView) -> bool {
    tool_line(t) matches Some(line) && text::has_text(preamble, line + "\n"@)
}

/// The preamble that teaches the model about its tools.
pub open spec fn tool_preamble(tools: Seq<ToolView>, workspace: Option<Seq<char>>) -> Seq<char> {
    AGENT_RULES@ + (match workspace {
        Some(ws) => WORKSPACE_LEAD@ + ws + WORKSPACE_TAIL@,
        None => Seq::empty(),
    }) + TOOLS_LEAD@ + tool_lines(tools) + TOOLS_TAIL@
}

/// One tool on one line.
fn render_tool(t: &ToolDefinition) -> (r: Option<String>)
    ensures
        match r {
            Some(line) => tool_line(t@) == Some(line@),
            None => tool_line(t@) is None,
        },
        json::readable(t@.parameters) ==> r is Some,
{
    let kind = write_json(&json_string(t.kind));
    let name = write_json(&json_string(t.function.name));
    let description = write_json(&json_string(t.function.description));
    let parameters = write_json(&t.function.parameters);
    match (kind, name, description, parameters) {
        (Ok(kind), Ok(name), Ok(description), Ok(parameters)) => {
            let mut s = "{\"type\":".to_owned();
            s.append(kind.as_str());
            s.append(",\"function\":{\"name\":");
            s.append(name.as_str());
            s.append(",\"description\":");
            s.append(description.as_str());
            s.append(",\"parameters\":");
            s.append(parameters.as_str());
            s.append("}}");
            Some(s)
        },
        _ => None,
    }
}

/// Renders the preamble that teaches the model about its tools. It stands at the top
/// of the system block.
pub fn render_tool_preamble(tools: &[ToolDefinition], workspace_hint: Option<&str>) -> (out: String)
    ensures
        out@ == tool_preamble(
            tool_views(tools@),
            match workspace_hint {
                Some(ws) => Some(ws@),
                None => None,
            },
        ),
        forall|k: int|
            0 <= k < tools@.len() && json::readable((#[trigger] tools@[k])@.parameters)
                ==> declares(out@, tools@[k]@),
{
    let mut s = AGENT_RULES.to_owned();
    let ghost place = match workspace_hint {
        Some(ws) => WORKSPACE_LEAD@ + ws@ + WORKSPACE_TAIL@,
        None => Seq::empty(),
    };
    if let Some(ws) = workspace_hint {
        s.append(WORKSPACE_LEAD);
        s.append(ws);
        s.append(WORKSPACE_TAIL);
    }
    assert(s@ =~= AGENT_RULES@ + place);
    s.append(TOOLS_LEAD);
    let ghost lead = s@;
    let ghost all = tool_views(tools@);
    let mut i: usize = 0;
    assert(all.take(0) =~= Seq::<ToolView>::empty());
    assert(lead + tool_lines(all.take(0)) =~= lead);
    while i < tools.len()
        invariant
            i <= tools.len(),
            all == tool_views(tools@),
            s@ == lead + tool_lines(all.take(i as int)),
            forall|k: int|
                0 <= k < i && json::readable((#[trigger] tools@[k])@.parameters) ==> tool_line(
                    tools@[k]@,
                ) is Some,
        decreases tools.len() - i,
    {
        assert(all.take(i + 1).drop_last() =~= all.take(i as int));
        assert(all.take(i + 1).last() == tools@[i as int]@);
        if let Some(line) = render_tool(&tools[i]) {
            s.append(line.as_str());
            s.append("\n");
            assert(s@ =~= lead + tool_lines(all.take(i + 1)));
        }
        i = i + 1;
    }
    assert(all.take(all.len() as int) =~= all);
    s.append(TOOLS_TAIL);
    proof {
        let hint = match workspace_hint {
            Some(ws) => Some(ws@),
            None => None,
        };
        assert(s@ =~= tool_preamble(all, hint));
        assert forall|k: int|
            0 <= k < tools@.len() && json::readable(
                (#[trigger] tools@[k])@.parameters,
            ) implies declares(s@, tools@[k]@) by {
            assert(all[k] == tools@[k]@);
            law_every_tool_declared(all, hint, k);
        }
    }
    s
}

/// Renders the preamble that teaches the agent about the filesystem tools. Each of them has
/// its line in it.
pub fn agent_preamble(workspace_hint: Option<&str>) -> (out: String)
    ensures
        out@ == tool_preamble(
            filesystem_catalog(),
            match workspace_hint {
                Some(ws) => Some(ws@),
                None => None,
            },
        ),
        forall|k: int|
            0 <= k < filesystem_catalog().len() ==> declares(
                out@,
                #[trigger] filesystem_catalog()[k],
            ),
{
    let tools = filesystem_tools();
    let out = render_tool_preamble(tools.as_slice(), workspace_hint);
    proof {
        assert forall|k: int| 0 <= k < filesystem_catalog().len() implies declares(
            out@,
            #[trigger] filesystem_catalog()[k],
        ) by {
            assert(tool_views(tools@)[k] == tools@[k]@);
            law_tools_can_be_written(k);
        }
    }
    out
}

// ---------------------------------------------------------------------------
// Telling the model about results
// ---------------------------------------------------------------------------

/// A tool result as the model reads it.
pub open spec fn tool_response_text(id: Seq<char>, ok: bool, content: Seq<char>) -> Seq<char> {
    "<tool_response>\n{\"id\": \""@ + id + "\", \"status\": \""@ + (if ok {
        "ok"@
    } else {
        "error"@
    }) + "\", \"content\": "@ + json::json_text_or(Json::Text(content), "\"\""@)
        + "}\n</tool_response>"@
}

/// Renders a tool result as the model reads it.
pub fn render_tool_response(result: &ToolResult) -> (out: String)
    ensures
        out@ == tool_response_text(result.id@, result.ok, result.content@),
{
    let status = if result.ok {
        "ok"
    } else {
        "error"
    };
    let mut s = "<tool_response>\n{\"id\": \"".to_owned();
    s.append(result.id.as_str());
    s.append("\", \"status\": \"");
    s.append(status);
    s.append("\", \"content\": ");
    let content = json_text_of(&json_string(result.content.as_str()), "\"\"");
    s.append(content.as_str());
    s.append("}\n</tool_response>");
    s
}

// ---------------------------------------------------------------------------
// Laws
// ---------------------------------------------------------------------------

/// No two tools have the same name, so that a call names one tool.
pub proof fn law_tool_names_distinct(i: int, j: int)
    requires
        0 <= i < j < filesystem_catalog().len(),
    ensures
        filesystem_catalog()[i].name != filesystem_catalog()[j].name,
{
    reveal_strlit("list_dir");
    reveal_strlit("read_file");
    reveal_strlit("write_file");
    reveal_strlit("append_file");
    reveal_strlit("delete_path");
    reveal_strlit("move_path");
    reveal_strlit("create_dir");
    reveal_strlit("search");
    let c = filesystem_catalog();
    assert(c.len() == 8);
    assert(c[0].name.len() == 8);
    assert(c[1].name.len() == 9 && c[1].name[0] == 'r');
    assert(c[2].name.len() == 10 && c[2].name[0] == 'w');
    assert(c[3].name.len() == 11 && c[3].name[0] == 'a');
    assert(c[4].name.len() == 11 && c[4].name[0] == 'd');
    assert(c[5].name.len() == 9 && c[5].name[0] == 'm');
    assert(c[6].name.len() == 10 && c[6].name[0] == 'c');
    assert(c[7].name.len() == 6);
}

/// The schema of every tool survives being written: it holds no numbers, no reserved names
/// and little nesting.
pub proof fn law_tools_can_be_written(i: int)
    requires
        0 <= i < filesystem_catalog().len(),
    ensures
        json::readable(filesystem_catalog()[i].parameters),
{
    lemma_argument_names();
    if i == 0 {
        lemma_schema_readable(
            seq![arg("path", "string", Some("Workspace-relative path. Use '.' for the workspace root."))],
            seq!["path"],
        );
    } else if i == 1 {
        lemma_schema_readable(
            seq![
                arg("path", "string", Some("Workspace-relative file path.")),
                arg("max_bytes", "integer", Some("Optional byte cap. Default 262144.")),
            ],
            seq!["path"],
        );
    } else if i == 2 || i == 3 {
        lemma_schema_readable(
            seq![arg("path", "string", None), arg("content", "string", None)],
            seq!["path", "content"],
        );
    } else if i == 4 || i == 6 {
        lemma_schema_readable(seq![arg("path", "string", None)], seq!["path"]);
    } else if i == 5 {
        lemma_schema_readable(
            seq![arg("from", "string", None), arg("to", "string", None)],
            seq!["from", "to"],
        );
    } else {
        lemma_schema_readable(
            seq![
                arg("query", "string", Some("Plain-text substring to search for. Not a regex.")),
                arg(
                    "path",
                    "string",
                    Some(
                        "Optional workspace-relative subdirectory to scope the search. Defaults to the workspace root.",
                    ),
                ),
                arg(
                    "max_results",
                    "integer",
                    Some("Cap on returned matches. Default 100; hard ceiling 1000."),
                ),
                arg(
                    "case_insensitive",
                    "boolean",
                    Some("If true, fold case before comparing. Default false."),
                ),
            ],
            seq!["query"],
        );
    }
}

/// The names of the arguments differ by their lengths, and none starts like a reserved one.
proof fn lemma_argument_names()
    ensures
        "path"@.len() == 4,
        "max_bytes"@.len() == 9,
        "content"@.len() == 7,
        "from"@.len() == 4,
        "to"@.len() == 2,
        "query"@.len() == 5,
        "max_results"@.len() == 11,
        "case_insensitive"@.len() == 16,
        !json::is_reserved("path"@),
        !json::is_reserved("max_bytes"@),
        !json::is_reserved("content"@),
        !json::is_reserved("from"@),
        !json::is_reserved("to"@),
        !json::is_reserved("query"@),
        !json::is_reserved("max_results"@),
        !json::is_reserved("case_insensitive"@),
{
    reveal_strlit("path");
    reveal_strlit("max_bytes");
    reveal_strlit("content");
    reveal_strlit("from");
    reveal_strlit("to");
    reveal_strlit("query");
    reveal_strlit("max_results");
    reveal_strlit("case_insensitive");
    reveal_strlit("$serde_json::private::RawValue");
    reveal_strlit("$serde_json::private::Number");
    assert("$serde_json::private::RawValue"@.len() == 30);
    assert("$serde_json::private::Number"@.len() == 28);
}

/// The keys of a schema differ by their lengths, and none is reserved.
proof fn lemma_schema_keys()
    ensures
        "type"@.len() == 4,
        "properties"@.len() == 10,
        "required"@.len() == 8,
        "description"@.len() == 11,
        !json::is_reserved("type"@),
        !json::is_reserved("properties"@),
        !json::is_reserved("required"@),
        !json::is_reserved("description"@),
{
    reveal_strlit("type");
    reveal_strlit("properties");
    reveal_strlit("required");
    reveal_strlit("description");
    reveal_strlit("$serde_json::private::RawValue");
    reveal_strlit("$serde_json::private::Number");
    assert("$serde_json::private::RawValue"@.len() == 30);
    assert("$serde_json::private::Number"@.len() == 28);
}

/// A schema of well-named arguments survives being written.
proof fn lemma_schema_readable(properties: Seq<Property>, required: Seq<&'static str>)
    requires
        well_named(properties),
    ensures
        json::readable(schema(properties, required)),
{
    lemma_schema_keys();
    let inner = property_fields(properties);
    assert forall|i: int| 0 <= i < inner.len() implies !json::is_reserved((#[trigger] inner[i]).0)
        && json::plain(inner[i].1, 98) by {
        let p = properties[i];
        assert(inner[i] == (p.name@, property_schema(p)));
        match p.description {
            Some(d) => json::lemma_plain_object(
                seq![("type"@, Json::Text(p.kind@)), ("description"@, Json::Text(d@))],
                97,
            ),
            None => json::lemma_plain_object(seq![("type"@, Json::Text(p.kind@))], 97),
        }
    }
    json::lemma_plain_object(inner, 98);
    let names = required.map_values(|s: &'static str| Json::Text(s@));
    assert(json::plain(name_list(required), 99)) by {
        assert forall|i: int| 0 <= i < names.len() implies json::plain(#[trigger] names[i], 98) by {
            assert(names[i] == Json::Text(required[i]@));
        }
    }
    json::lemma_plain_object(
        seq![
            ("type"@, Json::Text("object"@)),
            ("properties"@, Json::Object(json::pairs_object(inner))),
            ("required"@, name_list(required)),
        ],
        99,
    );
}

/// Every tool that can be written has its line in the preamble.
pub proof fn law_every_tool_declared(tools: Seq<ToolView>, workspace: Option<Seq<char>>, k: int)
    requires
        0 <= k < tools.len(),
        tool_line(tools[k]) is Some,
    ensures
        text::has_text(tool_preamble(tools, workspace), tool_line(tools[k])->0 + "\n"@),
{
    let line = tool_line(tools[k])->0 + "\n"@;
    lemma_tool_line(tools, k);
    let lines = tool_lines(tools);
    let i = choose|i: int| text::occurs_at(lines, line, i);
    let place = match workspace {
        Some(ws) => WORKSPACE_LEAD@ + ws + WORKSPACE_TAIL@,
        None => Seq::empty(),
    };
    let lead = AGENT_RULES@ + place + TOOLS_LEAD@;
    let all = tool_preamble(tools, workspace);
    assert(all =~= lead + lines + TOOLS_TAIL@);
    assert(all.subrange(lead.len() + i, lead.len() + i + line.len()) =~= lines.subrange(
        i,
        i + line.len(),
    ));
    assert(text::occurs_at(all, line, lead.len() + i));
}

proof fn lemma_tool_line(tools: Seq<ToolView>, k: int)
    requires
        0 <= k < tools.len(),
        tool_line(tools[k]) is Some,
    ensures
        text::has_text(tool_lines(tools), tool_line(tools[k])->0 + "\n"@),
    decreases tools.len(),
{
    let line = tool_line(tools[k])->0 + "\n"@;
    let before = tool_lines(tools.drop_last());
    let all = tool_lines(tools);
    if k == tools.len() - 1 {
        assert(all =~= before + line);
        assert(all.subrange(before.len() as int, before.len() as int + line.len()) =~= line);
        assert(text::occurs_at(all, line, before.len() as int));
    } else {
        lemma_tool_line(tools.drop_last(), k);
        let i = choose|i: int| text::occurs_at(before, line, i);
        assert(all.subrange(i, i + line.len()) =~= before.subrange(i, i + line.len()));
        assert(text::occurs_at(all, line, i));
    }
}

/// The arguments that a schema declares, each under its name.
pub open spec fn declared(schema: Json) -> Map<Seq<char>, Json> {
    match schema {
        Json::Object(fields) => match fields["properties"@] {
            Json::Object(properties) => properties,
            _ => Map::empty(),
        },
        _ => Map::empty(),
    }
}

/// The arguments that a schema asks for.
pub open spec fn demanded(schema: Json) -> Seq<Json> {
    match schema {
        Json::Object(fields) => match fields["required"@] {
            Json::Array(names) => names,
            _ => Seq::empty(),
        },
        _ => Seq::empty(),
    }
}

/// Every argument that a tool asks for is declared.
pub proof fn law_demanded_arguments_declared(i: int, k: int)
    requires
        0 <= i < filesystem_catalog().len(),
        0 <= k < demanded(filesystem_catalog()[i].parameters).len(),
    ensures
        demanded(filesystem_catalog()[i].parameters)[k] matches Json::Text(name) && declared(
            filesystem_catalog()[i].parameters,
        ).dom().contains(name),
{
    if i == 0 {
        lemma_schema(
            seq![arg("path", "string", Some("Workspace-relative path. Use '.' for the workspace root."))],
            seq!["path"],
        );
    } else if i == 1 {
        lemma_schema(
            seq![
                arg("path", "string", Some("Workspace-relative file path.")),
                arg("max_bytes", "integer", Some("Optional byte cap. Default 262144.")),
            ],
            seq!["path"],
        );
    } else if i == 2 || i == 3 {
        lemma_schema(
            seq![arg("path", "string", None), arg("content", "string", None)],
            seq!["path", "content"],
        );
    } else if i == 4 || i == 6 {
        lemma_schema(seq![arg("path", "string", None)], seq!["path"]);
    } else if i == 5 {
        lemma_schema(
            seq![arg("from", "string", None), arg("to", "string", None)],
            seq!["from", "to"],
        );
    } else {
        lemma_schema(
            seq![
                arg("query", "string", Some("Plain-text substring to search for. Not a regex.")),
                arg(
                    "path",
                    "string",
                    Some(
                        "Optional workspace-relative subdirectory to scope the search. Defaults to the workspace root.",
                    ),
                ),
                arg(
                    "max_results",
                    "integer",
                    Some("Cap on returned matches. Default 100; hard ceiling 1000."),
                ),
                arg(
                    "case_insensitive",
                    "boolean",
                    Some("If true, fold case before comparing. Default false."),
                ),
            ],
            seq!["query"],
        );
    }
}

/// A schema declares what it asks for where it asks for its first arguments.
proof fn lemma_schema(properties: Seq<Property>, required: Seq<&'static str>)
    requires
        required.len() <= properties.len(),
        forall|k: int|
            0 <= k < required.len() ==> (#[trigger] required[k])@ == properties[k].name@,
    ensures
        demanded(schema(properties, required)).len() == required.len(),
        forall|k: int|
            0 <= k < required.len() ==> (#[trigger] demanded(
                schema(properties, required),
            )[k] matches Json::Text(name) && declared(
                schema(properties, required),
            ).dom().contains(name)),
{
    reveal_strlit("type");
    reveal_strlit("properties");
    reveal_strlit("required");
    assert("type"@.len() != "properties"@.len());
    assert("type"@.len() != "required"@.len());
    assert("properties"@.len() != "required"@.len());
    let inner = property_fields(properties);
    let fields = seq![
        ("type"@, Json::Text("object"@)),
        ("properties"@, Json::Object(json::pairs_object(inner))),
        ("required"@, name_list(required)),
    ];
    reveal_with_fuel(json::pairs_object, 4);
    let whole = json::pairs_object(fields);
    assert(fields.drop_last() =~= seq![fields[0], fields[1]]);
    assert(fields.drop_last().drop_last() =~= seq![fields[0]]);
    assert(whole["required"@] == name_list(required));
    assert(whole["properties"@] == Json::Object(json::pairs_object(inner)));
    let names = demanded(schema(properties, required));
    assert forall|k: int| 0 <= k < required.len() implies (
    #[trigger] names[k] matches Json::Text(name) && declared(
        schema(properties, required),
    ).dom().contains(name)) by {
        assert(names[k] == Json::Text(required[k]@));
        assert(inner[k].0 == properties[k].name@);
        lemma_key_present(inner, k);
    }
}

/// An object has the key of each of its fields.
proof fn lemma_key_present(fields: Seq<(Seq<char>, Json)>, k: int)
    requires
        0 <= k < fields.len(),
    ensures
        json::pairs_object(fields).dom().contains(fields[k].0),
    decreases fields.len(),
{
    if k < fields.len() - 1 {
        lemma_key_present(fields.drop_last(), k);
    }
}

/// The root of the workspace, where it is given, is told in a line of its own; without it
/// the preamble is the same but for this line.
pub proof fn law_workspace_is_told(tools: Seq<ToolView>, ws: Seq<char>)
    ensures
        ({
            let with = tool_preamble(tools, Some(ws));
            let without = tool_preamble(tools, None);
            let line = "Workspace root (informational only; never include this prefix in tool arguments): `"@
                + ws + "`\n\n"@;
            exists|at: int|
                0 <= at <= without.len() && with == #[trigger] without.take(at) + line
                    + without.skip(at)
        }),
{
    let with = tool_preamble(tools, Some(ws));
    let without = tool_preamble(tools, None);
    let line = "Workspace root (informational only; never include this prefix in tool arguments): `"@
        + ws + "`\n\n"@;
    let at = AGENT_RULES@.len() as int;
    assert(without =~= AGENT_RULES@ + (TOOLS_LEAD@ + tool_lines(tools) + TOOLS_TAIL@));
    assert(without.take(at) =~= AGENT_RULES@);
    assert(without.skip(at) =~= TOOLS_LEAD@ + tool_lines(tools) + TOOLS_TAIL@);
    assert(with =~= without.take(at) + line + without.skip(at));
}

/// The tools are told in their order, each on a line, between the tags: one more tool adds
/// its line at the end of the list and changes nothing else.
pub proof fn law_each_tool_adds_its_line(
    tools: Seq<ToolView>,
    t: ToolView,
    workspace: Option<Seq<char>>,
)
    ensures
        ({
            let before = tool_preamble(tools, workspace);
            let after = tool_preamble(tools.push(t), workspace);
            let line = match tool_line(t) {
                Some(l) => l + "\n"@,
                None => Seq::empty(),
            };
            exists|at: int|
                0 <= at <= before.len() && after == #[trigger] before.take(at) + line
                    + before.skip(at) && "</tools>"@.is_prefix_of(before.skip(at))
        }),
        text::has_text(tool_preamble(Seq::empty(), workspace), "<tools>\n</tools>\n"@),
{
    let place = match workspace {
        Some(ws) => WORKSPACE_LEAD@ + ws + WORKSPACE_TAIL@,
        None => Seq::empty(),
    };
    let top = AGENT_RULES@ + place + TOOLS_LEAD@;
    let line = match tool_line(t) {
        Some(l) => l + "\n"@,
        None => Seq::empty(),
    };
    let before = tool_preamble(tools, workspace);
    let after = tool_preamble(tools.push(t), workspace);
    let lead = top + tool_lines(tools);
    let at = lead.len() as int;
    assert(tools.push(t).drop_last() =~= tools);
    assert(tool_lines(tools.push(t)) =~= tool_lines(tools) + line);
    assert(before =~= lead + TOOLS_TAIL@);
    assert(before.take(at) =~= lead);
    assert(before.skip(at) =~= TOOLS_TAIL@);
    assert(after =~= before.take(at) + line + before.skip(at));
    lemma_tags();
    let none = tool_preamble(Seq::empty(), workspace);
    let n = TOOLS_LEAD@.len() - 8;
    let a = AGENT_RULES@ + place + TOOLS_LEAD@.take(n);
    assert(none =~= AGENT_RULES@ + place + TOOLS_LEAD@ + TOOLS_TAIL@);
    let k = a.len() as int;
    assert(none.subrange(k, k + 17) =~= "<tools>\n</tools>\n"@) by {
        assert(none.subrange(k, k + 8) =~= TOOLS_LEAD@.skip(n));
        assert(none.subrange(k + 8, k + 17) =~= TOOLS_TAIL@.take(9));
        assert(none.subrange(k, k + 17) =~= none.subrange(k, k + 8) + none.subrange(
            k + 8,
            k + 17,
        ));
        assert("<tools>\n</tools>\n"@ =~= "<tools>\n</tools>\n"@.take(8)
            + "<tools>\n</tools>\n"@.skip(8));
    }
    assert(text::occurs_at(none, "<tools>\n</tools>\n"@, k));
}

/// The tags round the tools.
proof fn lemma_tags()
    ensures
        "</tools>"@.is_prefix_of(TOOLS_TAIL@),
        TOOLS_LEAD@.len() >= 8,
        TOOLS_LEAD@.skip(TOOLS_LEAD@.len() - 8) == "<tools>\n"@,
        TOOLS_TAIL@.len() >= 9,
        "<tools>\n</tools>\n"@.len() == 17,
        "<tools>\n</tools>\n"@.take(8) == "<tools>\n"@,
        "<tools>\n</tools>\n"@.skip(8) == TOOLS_TAIL@.take(9),
{
    reveal_strlit("Function signatures (JSON Schema) within <tools></tools>:\n<tools>\n");
    reveal_strlit("</tools>\n\nReturn each call as JSON within <tool_call></tool_call>:\n\
<tool_call>\n{\"name\": <function-name>, \"arguments\": <args-json-object>}\n</tool_call>\n");
    reveal_strlit("</tools>");
    reveal_strlit("<tools>\n");
    reveal_strlit("<tools>\n</tools>\n");
    assert(TOOLS_LEAD@.skip(TOOLS_LEAD@.len() - 8) =~= "<tools>\n"@);
    assert("<tools>\n</tools>\n"@.take(8) =~= "<tools>\n"@);
    assert("<tools>\n</tools>\n"@.skip(8) =~= TOOLS_TAIL@.take(9));
}

/// A tool result is told with the id of its call and its content, whether the tool did its
/// work or not; the two differ in the status alone.
pub proof fn law_result_is_told(id: Seq<char>, content: Seq<char>)
    ensures
        ({
            let good = tool_response_text(id, true, content);
            let bad = tool_response_text(id, false, content);
            let lead = "<tool_response>\n{\"id\": \""@ + id + "\", \"status\": \""@;
            let tail = "\", \"content\": "@ + json::json_text_or(Json::Text(content), "\"\""@)
                + "}\n</tool_response>"@;
            &&& lead.is_prefix_of(good) && lead.is_prefix_of(bad)
            &&& good.skip(lead.len() as int) == "ok"@ + tail
            &&& bad.skip(lead.len() as int) == "error"@ + tail
        }),
{
    let good = tool_response_text(id, true, content);
    let bad = tool_response_text(id, false, content);
    let lead = "<tool_response>\n{\"id\": \""@ + id + "\", \"status\": \""@;
    let tail = "\", \"content\": "@ + json::json_text_or(Json::Text(content), "\"\""@)
        + "}\n</tool_response>"@;
    assert(good =~= lead + ("ok"@ + tail));
    assert(bad =~= lead + ("error"@ + tail));
    assert(good.skip(lead.len() as int) =~= "ok"@ + tail);
    assert(bad.skip(lead.len() as int) =~= "error"@ + tail);
}

} // verus!
