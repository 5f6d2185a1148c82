//! Extraction of tool calls from model output.
//!
//! Two formats are understood. The canonical one wraps a JSON object in
//! `<tool_call>` tags. Where the output has no such tag at all, code fences are
//! searched instead, and a fence whose body has the shape of a tool call (or of
//! several) counts as one. Text outside the calls that were found is prose, and
//! a block that cannot be read stays in the prose as it was written.

use vstd::prelude::*;
use vstd::string::*;

use crate::json::{
    json_null, parse_json, split_fields, split_json, stream_json, Json, JsonParts,
};
use crate::text::{chars_of, find_text, matches_at, same_text, string_of, trim, trim_end_matches, trim_start_matches};
use crate::ids::new_uuid;
use crate::tools::markup;
use crate::tools::{call_id, ParsedToolCall};
use crate::{json, text};

verus! {

/// The tag that opens a canonical block.
pub const OPEN: &'static str = "<tool_call>";

/// The tag that closes a canonical block.
pub const CLOSE: &'static str = "</tool_call>";

/// A code fence with its language label.
pub const FENCE_JSON: &'static str = "```json";

/// A code fence.
pub const FENCE: &'static str = "```";

// ---------------------------------------------------------------------------
// Framing
// ---------------------------------------------------------------------------

/// A stretch of model output: prose, or a block with the body between its tags.
#[derive(Debug)]
pub struct Segment {
    /// The stretch as it was written, tags and all.
    pub raw: String,
    /// What stands between the tags, where the stretch is a block.
    pub body: Option<String>,
}

/// The characters of a `Segment`.
pub struct SegmentView {
    pub raw: Seq<char>,
    pub body: Option<Seq<char>>,
}

impl View for Segment {
    type V = SegmentView;

    open spec fn view(&self) -> SegmentView {
        SegmentView {
            raw: self.raw@,
            body: match self.body {
                Some(b) => Some(b@),
                None => None,
            },
        }
    }
}

/// The characters of each segment.
pub open spec fn segment_views(segments: Seq<Segment>) -> Seq<SegmentView> {
    segments.map_values(|s: Segment| s@)
}

/// A stretch of prose.
pub open spec fn prose_segment(raw: Seq<char>) -> SegmentView {
    SegmentView { raw, body: None }
}

/// `t` cut into prose and canonical blocks. A tag that is never closed makes
/// the rest of the text prose.
pub open spec fn canonical(t: Seq<char>) -> Seq<SegmentView>
    decreases t.len(),
{
    match text::first_at(t, OPEN@) {
        None => seq![prose_segment(t)],
        Some(i) => {
            let start = i + OPEN@.len();
            match text::find_from(t, CLOSE@, start) {
                None => seq![prose_segment(t.take(i)), prose_segment(t.skip(i))],
                Some(j) => {
                    let end = j + CLOSE@.len();
                    proof {
                        lemma_block_bounds(t);
                    }
                    seq![
                        prose_segment(t.take(i)),
                        SegmentView { raw: t.subrange(i, end), body: Some(t.subrange(start, j)) },
                    ] + canonical(t.skip(end))
                },
            }
        },
    }
}

/// Where the body of the fence at position `i` starts: after the fence, after
/// its `json` label if it has one, and after a line break if one follows.
pub open spec fn fence_body_start(t: Seq<char>, i: int) -> int {
    let after = if text::occurs_at(t, FENCE_JSON@, i) {
        i + FENCE_JSON@.len()
    } else {
        i + FENCE@.len()
    };
    if after < t.len() && t[after] == '\n' {
        after + 1
    } else {
        after
    }
}

/// `t` cut into prose and fenced blocks. A fence that is never closed makes the
/// rest of the text prose.
pub open spec fn fenced(t: Seq<char>) -> Seq<SegmentView>
    decreases t.len(),
{
    match text::first_at(t, FENCE@) {
        None => seq![prose_segment(t)],
        Some(i) => {
            let start = fence_body_start(t, i);
            match text::find_from(t, FENCE@, start) {
                None => seq![prose_segment(t.take(i)), prose_segment(t.skip(i))],
                Some(j) => {
                    let end = j + FENCE@.len();
                    proof {
                        lemma_fence_bounds(t);
                    }
                    seq![
                        prose_segment(t.take(i)),
                        SegmentView { raw: t.subrange(i, end), body: Some(t.subrange(start, j)) },
                    ] + fenced(t.skip(end))
                },
            }
        },
    }
}

/// The positions of the first canonical block lie in order within the text.
pub proof fn lemma_block_bounds(t: Seq<char>)
    ensures
        OPEN@.len() == 11,
        CLOSE@.len() == 12,
        text::first_at(t, OPEN@) matches Some(i) ==> {
            &&& 0 <= i
            &&& i + OPEN@.len() <= t.len()
            &&& text::find_from(t, CLOSE@, i + OPEN@.len()) matches Some(j) ==> {
                &&& i + OPEN@.len() <= j
                &&& j + CLOSE@.len() <= t.len()
            }
        },
{
    reveal_strlit("<tool_call>");
    reveal_strlit("</tool_call>");
    text::lemma_find_from(t, OPEN@, 0);
    if let Some(i) = text::first_at(t, OPEN@) {
        text::lemma_find_from(t, CLOSE@, i + OPEN@.len());
    }
}

/// The positions of the first fenced block lie in order within the text.
pub proof fn lemma_fence_bounds(t: Seq<char>)
    ensures
        FENCE@.len() == 3,
        FENCE_JSON@.len() == 7,
        text::first_at(t, FENCE@) matches Some(i) ==> {
            let start = fence_body_start(t, i);
            &&& 0 <= i
            &&& i + FENCE@.len() <= start <= t.len()
            &&& text::find_from(t, FENCE@, start) matches Some(j) ==> {
                &&& start <= j
                &&& j + FENCE@.len() <= t.len()
            }
        },
{
    reveal_strlit("```");
    reveal_strlit("```json");
    text::lemma_find_from(t, FENCE@, 0);
    if let Some(i) = text::first_at(t, FENCE@) {
        text::lemma_find_from(t, FENCE@, fence_body_start(t, i));
    }
}

/// Cuts model output into prose and canonical blocks.
pub fn canonical_segments(output: &str) -> (out: Vec<Segment>)
    ensures
        segment_views(out@) == canonical(output@),
{
    let v = chars_of(output);
    let open = chars_of(OPEN);
    let close = chars_of(CLOSE);
    let mut out: Vec<Segment> = Vec::new();
    let mut cursor: usize = 0;
    proof {
        lemma_block_bounds(v@);
        assert(v@.skip(0) =~= v@);
        assert(segment_views(out@) + canonical(v@) =~= canonical(v@));
    }
    loop
        invariant
            v@ == output@,
            open@ == OPEN@,
            close@ == CLOSE@,
            open@.len() == 11,
            close@.len() == 12,
            cursor <= v.len(),
            segment_views(out@) + canonical(v@.skip(cursor as int)) == canonical(output@),
        decreases v@.len() - cursor,
    {
        let ghost rest = v@.skip(cursor as int);
        let ghost before = out@;
        proof {
            text::lemma_find_from_skip(v@, OPEN@, cursor as int, 0);
            lemma_block_bounds(rest);
        }
        let open_idx = match find_text(&v, &open, cursor) {
            None => {
                out.push(Segment { raw: string_of(&v, cursor, v.len()), body: None });
                proof {
                    assert(v@.subrange(cursor as int, v@.len() as int) =~= rest);
                    assert(segment_views(out@) =~= segment_views(before) + canonical(rest));
                }
                return out;
            },
            Some(i) => i,
        };
        let body_start = open_idx + open.len();
        proof {
            text::lemma_find_from_skip(v@, CLOSE@, cursor as int, body_start - cursor);
        }
        let lead = Segment { raw: string_of(&v, cursor, open_idx), body: None };
        assert(lead@ == prose_segment(rest.take(open_idx - cursor))) by {
            assert(v@.subrange(cursor as int, open_idx as int) =~= rest.take(open_idx - cursor));
        }
        match find_text(&v, &close, body_start) {
            None => {
                let tail = Segment { raw: string_of(&v, open_idx, v.len()), body: None };
                proof {
                    assert(v@.subrange(open_idx as int, v@.len() as int) =~= rest.skip(
                        open_idx - cursor,
                    ));
                    assert(tail@ == prose_segment(rest.skip(open_idx - cursor)));
                }
                out.push(lead);
                out.push(tail);
                proof {
                    assert(segment_views(out@) =~= segment_views(before) + canonical(rest));
                }
                return out;
            },
            Some(body_end) => {
                let end = body_end + close.len();
                let block = Segment {
                    raw: string_of(&v, open_idx, end),
                    body: Some(string_of(&v, body_start, body_end)),
                };
                proof {
                    assert(v@.subrange(open_idx as int, end as int) =~= rest.subrange(
                        open_idx - cursor,
                        end - cursor,
                    ));
                    assert(v@.subrange(body_start as int, body_end as int) =~= rest.subrange(
                        body_start - cursor,
                        body_end - cursor,
                    ));
                    assert(rest.skip(end - cursor) =~= v@.skip(end as int));
                }
                let ghost lead_view = lead@;
                let ghost block_view = block@;
                out.push(lead);
                out.push(block);
                proof {
                    assert(canonical(rest) == seq![lead_view, block_view] + canonical(
                        v@.skip(end as int),
                    ));
                    assert(segment_views(out@) + canonical(v@.skip(end as int)) =~= segment_views(
                        before,
                    ) + canonical(rest));
                }
                cursor = end;
            },
        }
    }
}

/// Cuts model output into prose and fenced blocks.
pub fn fenced_segments(text: &str) -> (out: Vec<Segment>)
    ensures
        segment_views(out@) == fenced(text@),
{
    let v = chars_of(text);
    let fence = chars_of(FENCE);
    let label = chars_of(FENCE_JSON);
    let mut out: Vec<Segment> = Vec::new();
    let mut cursor: usize = 0;
    proof {
        lemma_fence_bounds(v@);
        assert(v@.skip(0) =~= v@);
        assert(segment_views(out@) + fenced(v@) =~= fenced(v@));
    }
    loop
        invariant
            v@ == text@,
            fence@ == FENCE@,
            label@ == FENCE_JSON@,
            fence@.len() == 3,
            label@.len() == 7,
            cursor <= v.len(),
            segment_views(out@) + fenced(v@.skip(cursor as int)) == fenced(text@),
        decreases v@.len() - cursor,
    {
        let ghost rest = v@.skip(cursor as int);
        let ghost before = out@;
        proof {
            text::lemma_find_from_skip(v@, FENCE@, cursor as int, 0);
            lemma_fence_bounds(rest);
        }
        let open_idx = match find_text(&v, &fence, cursor) {
            None => {
                out.push(Segment { raw: string_of(&v, cursor, v.len()), body: None });
                proof {
                    assert(v@.subrange(cursor as int, v@.len() as int) =~= rest);
                    assert(segment_views(out@) =~= segment_views(before) + fenced(rest));
                }
                return out;
            },
            Some(i) => i,
        };
        let has_label = matches_at(&v, &label, open_idx);
        proof {
            let at = open_idx - cursor;
            if at + 7 <= rest.len() {
                assert(rest.subrange(at, at + 7) =~= v@.subrange(
                    open_idx as int,
                    open_idx + 7,
                ));
            }
            assert(has_label == text::occurs_at(rest, FENCE_JSON@, at));
        }
        let after = if has_label {
            open_idx + label.len()
        } else {
            open_idx + fence.len()
        };
        let body_start = if after < v.len() && v[after] == '\n' {
            after + 1
        } else {
            after
        };
        assert(body_start - cursor == fence_body_start(rest, open_idx - cursor));
        proof {
            text::lemma_find_from_skip(v@, FENCE@, cursor as int, body_start - cursor);
        }
        let lead = Segment { raw: string_of(&v, cursor, open_idx), body: None };
        assert(lead@ == prose_segment(rest.take(open_idx - cursor))) by {
            assert(v@.subrange(cursor as int, open_idx as int) =~= rest.take(open_idx - cursor));
        }
        match find_text(&v, &fence, body_start) {
            None => {
                let tail = Segment { raw: string_of(&v, open_idx, v.len()), body: None };
                proof {
                    assert(v@.subrange(open_idx as int, v@.len() as int) =~= rest.skip(
                        open_idx - cursor,
                    ));
                    assert(tail@ == prose_segment(rest.skip(open_idx - cursor)));
                }
                out.push(lead);
                out.push(tail);
                proof {
                    assert(segment_views(out@) =~= segment_views(before) + fenced(rest));
                }
                return out;
            },
            Some(body_end) => {
                let end = body_end + fence.len();
                let block = Segment {
                    raw: string_of(&v, open_idx, end),
                    body: Some(string_of(&v, body_start, body_end)),
                };
                proof {
                    assert(v@.subrange(open_idx as int, end as int) =~= rest.subrange(
                        open_idx - cursor,
                        end - cursor,
                    ));
                    assert(v@.subrange(body_start as int, body_end as int) =~= rest.subrange(
                        body_start - cursor,
                        body_end - cursor,
                    ));
                    assert(rest.skip(end - cursor) =~= v@.skip(end as int));
                }
                let ghost lead_view = lead@;
                let ghost block_view = block@;
                out.push(lead);
                out.push(block);
                proof {
                    assert(fenced(rest) == seq![lead_view, block_view] + fenced(
                        v@.skip(end as int),
                    ));
                    assert(segment_views(out@) + fenced(v@.skip(end as int)) =~= segment_views(
                        before,
                    ) + fenced(rest));
                }
                cursor = end;
            },
        }
    }
}

// ---------------------------------------------------------------------------
// Bodies
// ---------------------------------------------------------------------------

/// What a tool call asks for: the tool and its arguments.
#[derive(Debug, Clone)]
pub struct CallBody {
    pub name: String,
    pub arguments: serde_json::Value,
}

impl View for CallBody {
    type V = (Seq<char>, Json);

    open spec fn view(&self) -> (Seq<char>, Json) {
        (self.name@, json::json_view(self.arguments))
    }
}

/// What each call of a list asks for.
pub open spec fn body_views(bodies: Seq<CallBody>) -> Seq<(Seq<char>, Json)> {
    bodies.map_values(|b: CallBody| b@)
}

/// The call that a JSON value stands for: an object whose `name` is a string. Without
/// arguments they are null.
pub open spec fn call_of(j: Json) -> Option<(Seq<char>, Json)> {
    match j {
        Json::Object(fields) => if fields.contains_key("name"@) {
            match fields["name"@] {
                Json::Text(name) => Some(
                    (
                        name,
                        if fields.contains_key("arguments"@) {
                            fields["arguments"@]
                        } else {
                            Json::Null
                        },
                    ),
                ),
                _ => None,
            }
        } else {
            None
        },
        _ => None,
    }
}

/// The calls among a list of JSON values, in order.
pub open spec fn calls_of_list(items: Seq<Json>) -> Seq<(Seq<char>, Json)>
    decreases items.len(),
{
    if items.len() == 0 {
        Seq::empty()
    } else {
        let front = calls_of_list(items.drop_last());
        match call_of(items.last()) {
            Some(c) => front.push(c),
            None => front,
        }
    }
}

/// The calls that one JSON value holds: itself, or, for an array, those among its items.
pub open spec fn calls_of_value(j: Json) -> Seq<(Seq<char>, Json)> {
    match j {
        Json::Array(items) => calls_of_list(items),
        _ => match call_of(j) {
            Some(c) => seq![c],
            None => Seq::empty(),
        },
    }
}

/// The calls among the values that a stream yields, its errors passed over.
pub open spec fn calls_of_steps(steps: Seq<Result<Json, Seq<char>>>) -> Seq<(Seq<char>, Json)>
    decreases steps.len(),
{
    if steps.len() == 0 {
        Seq::empty()
    } else {
        let front = calls_of_steps(steps.drop_last());
        match steps.last() {
            Ok(j) => match call_of(j) {
                Some(c) => front.push(c),
                None => front,
            },
            Err(_) => front,
        }
    }
}

/// A body without the code fences that may be wrapped round it.
pub open spec fn bare_body(body: Seq<char>) -> Seq<char> {
    text::trimmed(
        text::strip_end(
            text::strip_start(
                text::strip_start(text::trimmed(body), FENCE_JSON@),
                FENCE@,
            ),
            FENCE@,
        ),
    )
}

/// Where a scan of JSON text is: how many brackets are open, and whether it is in a
/// string, there right behind a backslash.
pub struct Scan {
    pub depth: int,
    pub quoted: bool,
    pub escaped: bool,
}

/// The start of a scan: outside of everything.
pub open spec fn outside() -> Scan {
    Scan { depth: 0, quoted: false, escaped: false }
}

/// A scan after one more character.
pub open spec fn scanned(at: Scan, c: char) -> Scan {
    if at.quoted {
        if at.escaped {
            Scan { escaped: false, ..at }
        } else if c == '\\' {
            Scan { escaped: true, ..at }
        } else {
            Scan { quoted: c != '"', ..at }
        }
    } else if c == '"' {
        Scan { quoted: true, ..at }
    } else if c == '{' || c == '[' {
        Scan { depth: at.depth + 1, ..at }
    } else if (c == '}' || c == ']') && at.depth > 0 {
        Scan { depth: at.depth - 1, ..at }
    } else {
        at
    }
}

/// A scan after a text.
pub open spec fn scan(at: Scan, s: Seq<char>) -> Scan
    decreases s.len(),
{
    if s.len() == 0 {
        at
    } else {
        scanned(scan(at, s.drop_last()), s.last())
    }
}

/// A character with a comma made a space where it separates two values.
pub open spec fn separator(at: Scan, c: char) -> char {
    if c == ',' && at.depth == 0 && !at.quoted {
        ' '
    } else {
        c
    }
}

/// A text with the commas between its values made spaces. Commas within a value stay.
pub open spec fn separated(at: Scan, s: Seq<char>) -> Seq<char>
    decreases s.len(),
{
    if s.len() == 0 {
        Seq::empty()
    } else {
        separated(at, s.drop_last()).push(separator(scan(at, s.drop_last()), s.last()))
    }
}

/// A scan under way.
#[derive(Debug, Clone, Copy)]
pub struct Scanner {
    pub depth: usize,
    pub quoted: bool,
    pub escaped: bool,
}

impl View for Scanner {
    type V = Scan;

    open spec fn view(&self) -> Scan {
        Scan { depth: self.depth as int, quoted: self.quoted, escaped: self.escaped }
    }
}

impl Scanner {
    /// The start of a scan.
    fn start() -> (r: Scanner)
        ensures
            r@ == outside(),
    {
        Scanner { depth: 0, quoted: false, escaped: false }
    }

    /// Takes in one more character.
    fn advance(self, c: char) -> (r: Scanner)
        requires
            self.depth < usize::MAX,
        ensures
            r@ == scanned(self@, c),
            r.depth <= self.depth + 1,
    {
        let mut next = self;
        if self.quoted {
            if self.escaped {
                next.escaped = false;
            } else if c == '\\' {
                next.escaped = true;
            } else {
                next.quoted = c != '"';
            }
        } else if c == '"' {
            next.quoted = true;
        } else if c == '{' || c == '[' {
            next.depth = self.depth + 1;
        } else if (c == '}' || c == ']') && self.depth > 0 {
            next.depth = self.depth - 1;
        }
        next
    }
}

/// Makes spaces of the commas between the values of a text.
pub fn separate(s: &str) -> (out: String)
    ensures
        out@ == separated(outside(), s@),
{
    let v = chars_of(s);
    let mut out = String::new();
    let mut at = Scanner::start();
    let mut i: usize = 0;
    assert(v@.take(0) =~= Seq::<char>::empty());
    while i < v.len()
        invariant
            i <= v@.len(),
            v@ == s@,
            at.depth <= i,
            at@ == scan(outside(), v@.take(i as int)),
            out@ == separated(outside(), v@.take(i as int)),
        decreases v@.len() - i,
    {
        let c = v[i];
        assert(v@.take(i + 1).drop_last() =~= v@.take(i as int));
        if c == ',' && at.depth == 0 && !at.quoted {
            out.push(' ');
        } else {
            out.push(c);
        }
        at = at.advance(c);
        i = i + 1;
    }
    assert(v@.take(v@.len() as int) =~= v@);
    out
}

// ---------------------------------------------------------------------------
// Objects, field by field
// ---------------------------------------------------------------------------

/// Where a search for the keys of an object is: the scan, whether a key comes next, what
/// there is of the key that it stands in, and the keys that it has passed, all as they are
/// written.
pub struct KeyScan {
    pub at: Scan,
    pub fresh: bool,
    pub open: Seq<char>,
    pub found: Seq<Seq<char>>,
}

/// A search after one more character. A key is the first string behind the brace that
/// opens the object, or behind a comma between its fields.
pub open spec fn key_scanned(k: KeyScan, c: char) -> KeyScan {
    let at = scanned(k.at, c);
    if k.open.len() > 0 {
        if at.quoted {
            KeyScan { at, open: k.open.push(c), ..k }
        } else {
            KeyScan { at, open: Seq::empty(), found: k.found.push(k.open.push(c)), ..k }
        }
    } else if k.at.quoted {
        KeyScan { at, ..k }
    } else if c == '"' && k.fresh {
        KeyScan { at, fresh: false, open: seq![c], ..k }
    } else if (c == '{' || c == ',') && at.depth == 1 {
        KeyScan { at, fresh: true, ..k }
    } else {
        KeyScan { at, ..k }
    }
}

/// A search after a text.
pub open spec fn key_scan(s: Seq<char>) -> KeyScan
    decreases s.len(),
{
    if s.len() == 0 {
        KeyScan { at: outside(), fresh: false, open: Seq::empty(), found: Seq::empty() }
    } else {
        key_scanned(key_scan(s.drop_last()), s.last())
    }
}

/// The keys of an object, in order and as they are written, each as often as it stands
/// there.
pub open spec fn keys_of(s: Seq<char>) -> Seq<Seq<char>> {
    key_scan(s).found
}

/// How many of the keys, as they are written, are `key`.
pub open spec fn key_count(written: Seq<Seq<char>>, key: Seq<char>) -> nat
    decreases written.len(),
{
    if written.len() == 0 {
        0
    } else {
        let front = key_count(written.drop_last(), key);
        if json::json_parse(written.last()) == Ok::<Json, Seq<char>>(Json::Text(key)) {
            front + 1
        } else {
            front
        }
    }
}

/// The text of the field with a key.
pub open spec fn field_text(fields: Seq<(Seq<char>, Seq<char>)>, key: Seq<char>) -> Option<
    Seq<char>,
>
    decreases fields.len(),
{
    if fields.len() == 0 {
        None
    } else if fields.first().0 == key {
        Some(fields.first().1)
    } else {
        field_text(fields.drop_first(), key)
    }
}

/// The value of a field, read at the depth at which it stands in its object.
pub open spec fn field_value(raw: Seq<char>) -> Option<Json> {
    match json::json_parse("["@ + raw + "]"@) {
        Ok(Json::Array(items)) => if items.len() == 1 {
            Some(items[0])
        } else {
            None
        },
        _ => None,
    }
}

/// A field that an object may have.
pub enum Field<T> {
    /// There is none.
    Missing,
    /// Its value cannot be read.
    Unreadable,
    /// Its value.
    Read(T),
}

/// The field of an object with a key.
pub open spec fn field_of(fields: Seq<(Seq<char>, Seq<char>)>, key: Seq<char>) -> Field<Json> {
    match field_text(fields, key) {
        None => Field::Missing,
        Some(raw) => match field_value(raw) {
            None => Field::Unreadable,
            Some(j) => Field::Read(j),
        },
    }
}

/// The call that a name and arguments make: the name has to be a string, and arguments
/// that are there have to be readable. Neither may stand there twice.
pub open spec fn fields_call(repeated: bool, name: Field<Json>, arguments: Field<Json>) -> Option<
    (Seq<char>, Json),
> {
    match (repeated, name, arguments) {
        (false, Field::Read(Json::Text(n)), Field::Missing) => Some((n, Json::Null)),
        (false, Field::Read(Json::Text(n)), Field::Read(j)) => Some((n, j)),
        _ => None,
    }
}

/// The call that the text of an object makes, whatever its other fields hold.
pub open spec fn lenient_call(body: Seq<char>) -> Option<(Seq<char>, Json)> {
    match json::json_fields(body) {
        Ok(fields) => fields_call(
            key_count(keys_of(body), "name"@) > 1 || key_count(keys_of(body), "arguments"@) > 1,
            field_of(fields, "name"@),
            field_of(fields, "arguments"@),
        ),
        Err(_) => None,
    }
}

/// The keys of an object, in order and as they are written.
pub fn object_keys(s: &str) -> (out: Vec<String>)
    ensures
        text::texts(out@) == keys_of(s@),
{
    let v = chars_of(s);
    let mut out: Vec<String> = Vec::new();
    let mut at = Scanner::start();
    let mut fresh = false;
    let mut open = String::new();
    let mut inside = false;
    let mut i: usize = 0;
    assert(v@.take(0) =~= Seq::<char>::empty());
    assert(text::texts(out@) =~= Seq::<Seq<char>>::empty());
    while i < v.len()
        invariant
            i <= v@.len(),
            v@ == s@,
            at.depth <= i,
            inside == (open@.len() > 0),
            key_scan(v@.take(i as int)) == (KeyScan {
                at: at@,
                fresh,
                open: open@,
                found: text::texts(out@),
            }),
        decreases v@.len() - i,
    {
        let c = v[i];
        assert(v@.take(i + 1).drop_last() =~= v@.take(i as int));
        let next = at.advance(c);
        if inside {
            open.push(c);
            if !next.quoted {
                let ghost before = out@;
                out.push(open);
                assert(text::texts(out@) =~= text::texts(before).push(out@.last()@));
                open = String::new();
                assert(open@ =~= Seq::<char>::empty());
                inside = false;
            }
        } else if at.quoted {
        } else if c == '"' && fresh {
            fresh = false;
            open.push(c);
            assert(open@ =~= seq![c]);
            inside = true;
        } else if (c == '{' || c == ',') && next.depth == 1 {
            fresh = true;
        }
        at = next;
        i = i + 1;
    }
    assert(v@.take(v@.len() as int) =~= v@);
    out
}

/// Tells whether a key stands among keys more than once.
fn repeats(written: &Vec<String>, key: &str) -> (r: bool)
    ensures
        r == (key_count(text::texts(written@), key@) > 1),
{
    let mut n: usize = 0;
    let mut i: usize = 0;
    let ghost all = text::texts(written@);
    assert(all.take(0) =~= Seq::<Seq<char>>::empty());
    while i < written.len()
        invariant
            i <= written@.len(),
            n <= i,
            all == text::texts(written@),
            n == key_count(all.take(i as int), key@),
        decreases written@.len() - i,
    {
        assert(all.take(i + 1).drop_last() =~= all.take(i as int));
        assert(all.take(i + 1).last() == written@[i as int]@);
        if let Ok(v) = parse_json(written[i].as_str()) {
            if let JsonParts::Text(s) = split_json(v) {
                if same_text(s.as_str(), key) {
                    n = n + 1;
                }
            }
        }
        i = i + 1;
    }
    assert(all.take(all.len() as int) =~= all);
    n > 1
}

/// What the field with a key holds.
pub open spec fn field_view(f: Field<serde_json::Value>) -> Field<Json> {
    match f {
        Field::Missing => Field::Missing,
        Field::Unreadable => Field::Unreadable,
        Field::Read(v) => Field::Read(json::json_view(v)),
    }
}

/// Reads the value of a field.
fn read_field(raw: &str) -> (r: Field<serde_json::Value>)
    ensures
        field_view(r) == (match field_value(raw@) {
            None => Field::Unreadable,
            Some(j) => Field::Read(j),
        }),
{
    let mut wrapped = "[".to_owned();
    wrapped.append(raw);
    wrapped.append("]");
    if let Ok(v) = parse_json(wrapped.as_str()) {
        if let JsonParts::Array(items) = split_json(v) {
            if items.len() == 1 {
                assert(json::json_views(items@)[0] == json::json_view(items@[0]));
                return Field::Read(items[0].clone());
            }
        }
    }
    Field::Unreadable
}

/// Looks up the field with a key, and reads it.
fn find_field(fields: &Vec<(String, String)>, key: &str) -> (r: Field<serde_json::Value>)
    ensures
        field_view(r) == field_of(json::field_views(fields@), key@),
{
    let ghost all = json::field_views(fields@);
    let mut i: usize = 0;
    assert(all.skip(0) =~= all);
    while i < fields.len()
        invariant
            i <= fields@.len(),
            all == json::field_views(fields@),
            field_text(all, key@) == field_text(all.skip(i as int), key@),
        decreases fields@.len() - i,
    {
        assert(all.skip(i as int).first() == (fields@[i as int].0@, fields@[i as int].1@));
        assert(all.skip(i as int).drop_first() =~= all.skip(i + 1));
        if same_text(fields[i].0.as_str(), key) {
            return read_field(fields[i].1.as_str());
        }
        i = i + 1;
    }
    Field::Missing
}

/// Makes a call of a name and arguments.
pub fn call_from_fields(
    repeated: bool,
    name: Field<serde_json::Value>,
    arguments: Field<serde_json::Value>,
) -> (r: Option<CallBody>)
    ensures
        match r {
            Some(c) => fields_call(repeated, field_view(name), field_view(arguments)) == Some(c@),
            None => fields_call(repeated, field_view(name), field_view(arguments)) is None,
        },
{
    if repeated {
        return None;
    }
    let name = match name {
        Field::Read(v) => match split_json(v) {
            JsonParts::Text(s) => s,
            _ => {
                return None;
            },
        },
        _ => {
            return None;
        },
    };
    match arguments {
        Field::Missing => Some(CallBody { name, arguments: json_null() }),
        Field::Read(arguments) => Some(CallBody { name, arguments }),
        Field::Unreadable => None,
    }
}

/// Reads the text of an object as a call, whatever its other fields hold.
pub fn lenient_from(body: &str) -> (r: Option<CallBody>)
    ensures
        match r {
            Some(c) => lenient_call(body@) == Some(c@),
            None => lenient_call(body@) is None,
        },
{
    match split_fields(body) {
        Ok(fields) => {
            let keys = object_keys(body);
            let repeated = repeats(&keys, "name") || repeats(&keys, "arguments");
            call_from_fields(
                repeated,
                find_field(&fields, "name"),
                find_field(&fields, "arguments"),
            )
        },
        Err(_) => None,
    }
}

// ---------------------------------------------------------------------------
// All calls of a body
// ---------------------------------------------------------------------------

/// The calls in a body: those of its one JSON value, or, where that cannot be read as a
/// whole, the call that it makes whatever its other fields hold, or, where it is not one
/// value, those of the values that follow each other in it, with white space, commas or
/// nothing between them. Only what is written as an array counts as one.
pub open spec fn calls_of_body(body: Seq<char>) -> Seq<(Seq<char>, Json)> {
    let bare = bare_body(body);
    if bare.len() == 0 {
        Seq::empty()
    } else {
        match json::json_parse(bare) {
            Ok(j) => if j is Array && bare.first() != '[' {
                Seq::empty()
            } else {
                calls_of_value(j)
            },
            Err(_) => match lenient_call(bare) {
                Some(c) => seq![c],
                None => calls_of_steps(json::json_stream(separated(outside(), bare))),
            },
        }
    }
}

/// A body that is the text of a readable value is read as that value.
pub open spec fn faithful(body: Seq<char>) -> bool {
    bare_body(body).len() > 0 ==> json::reads_back(
        bare_body(body),
        json::json_parse(bare_body(body)),
    )
}

/// In an object made of distinct keys, each key has the value it was set to, and
/// no other key is there.
proof fn lemma_pairs_object(pairs: Seq<(Seq<char>, Json)>, key: Seq<char>)
    requires
        json::distinct_keys(pairs),
    ensures
        forall|i: int|
            0 <= i < pairs.len() && #[trigger] pairs[i].0 == key ==> json::pairs_object(
                pairs,
            ).contains_key(key) && json::pairs_object(pairs)[key] == pairs[i].1,
        json::pairs_object(pairs).contains_key(key) ==> exists|i: int|
            0 <= i < pairs.len() && #[trigger] pairs[i].0 == key,
    decreases pairs.len(),
{
    if pairs.len() > 0 {
        let front = pairs.drop_last();
        lemma_pairs_object(front, key);
        assert forall|i: int| 0 <= i < pairs.len() && #[trigger] pairs[i].0 == key implies
            json::pairs_object(pairs).contains_key(key) && json::pairs_object(pairs)[key]
            == pairs[i].1 by {
            if i < pairs.len() - 1 {
                assert(front[i].0 == key);
                assert(pairs[i].0 != pairs[pairs.len() - 1].0);
            }
        }
        if json::pairs_object(pairs).contains_key(key) {
            if pairs.last().0 == key {
                assert(pairs[pairs.len() - 1].0 == key);
            } else {
                let i = choose|i: int| 0 <= i < front.len() && #[trigger] front[i].0 == key;
                assert(pairs[i].0 == key);
            }
        }
    }
}

/// The position of the field with the given key.
fn field_position(fields: &Vec<(String, serde_json::Value)>, key: &str) -> (r: Option<usize>)
    ensures
        match r {
            Some(i) => i < fields@.len() && fields@[i as int].0@ == key@,
            None => forall|i: int| 0 <= i < fields@.len() ==> #[trigger] fields@[i].0@ != key@,
        },
{
    let mut i: usize = 0;
    while i < fields.len()
        invariant
            i <= fields@.len(),
            forall|j: int| 0 <= j < i ==> #[trigger] fields@[j].0@ != key@,
        decreases fields@.len() - i,
    {
        if same_text(fields[i].0.as_str(), key) {
            return Some(i);
        }
        i = i + 1;
    }
    None
}

/// The name in a JSON value, where it is a string.
fn name_in(v: &serde_json::Value) -> (r: Option<String>)
    ensures
        match r {
            Some(s) => json::json_view(*v) == Json::Text(s@),
            None => !(json::json_view(*v) is Text),
        },
{
    match split_json(v.clone()) {
        JsonParts::Text(s) => Some(s),
        _ => None,
    }
}

/// Tells whether a JSON value is an array.
fn is_array(v: &serde_json::Value) -> (r: bool)
    ensures
        r == (json::json_view(*v) is Array),
{
    match split_json(v.clone()) {
        JsonParts::Array(_) => true,
        _ => false,
    }
}

/// Reads a JSON value as a tool call.
pub fn call_from(v: serde_json::Value) -> (r: Option<CallBody>)
    ensures
        match r {
            Some(c) => call_of(json::json_view(v)) == Some(c@),
            None => call_of(json::json_view(v)) is None,
        },
{
    match split_json(v) {
        JsonParts::Object(fields) => {
            proof {
                let pairs = json::pair_views(fields@);
                assert forall|i: int, j: int| 0 <= i < j < pairs.len() implies pairs[i].0
                    != pairs[j].0 by {
                    assert(fields@[i].0@ != fields@[j].0@);
                }
                lemma_pairs_object(pairs, "name"@);
                lemma_pairs_object(pairs, "arguments"@);
                assert(forall|i: int|
                    0 <= i < fields@.len() ==> #[trigger] pairs[i].0 == fields@[i].0@);
                assert(forall|i: int|
                    0 <= i < fields@.len() ==> #[trigger] pairs[i].1 == json::json_view(
                        fields@[i].1,
                    ));
            }
            let at = match field_position(&fields, "name") {
                Some(at) => at,
                None => {
                    return None;
                },
            };
            assert(json::pair_views(fields@)[at as int].0 == "name"@);
            let name = match name_in(&fields[at].1) {
                Some(name) => name,
                None => {
                    return None;
                },
            };
            let arguments = match field_position(&fields, "arguments") {
                Some(k) => {
                    assert(json::pair_views(fields@)[k as int].0 == "arguments"@);
                    fields[k].1.clone()
                },
                None => json_null(),
            };
            Some(CallBody { name, arguments })
        },
        _ => None,
    }
}

/// The calls among the items of a JSON array, in order.
pub fn calls_from_list(items: &Vec<serde_json::Value>) -> (out: Vec<CallBody>)
    ensures
        body_views(out@) == calls_of_list(json::json_views(items@)),
{
    let mut out: Vec<CallBody> = Vec::new();
    let mut i: usize = 0;
    let ghost views = json::json_views(items@);
    assert(views.take(0) =~= Seq::<Json>::empty());
    assert(body_views(out@) =~= Seq::<(Seq<char>, Json)>::empty());
    while i < items.len()
        invariant
            i <= items@.len(),
            views == json::json_views(items@),
            body_views(out@) == calls_of_list(views.take(i as int)),
        decreases items@.len() - i,
    {
        let ghost before = out@;
        assert(views.take(i + 1).drop_last() =~= views.take(i as int));
        match call_from(items[i].clone()) {
            Some(c) => {
                out.push(c);
                assert(body_views(out@) =~= body_views(before).push(c@));
            },
            None => {},
        }
        i = i + 1;
    }
    assert(views.take(items@.len() as int) =~= views);
    out
}

/// The calls that one JSON value holds.
pub fn calls_from_value(v: serde_json::Value) -> (out: Vec<CallBody>)
    ensures
        body_views(out@) == calls_of_value(json::json_view(v)),
{
    let mut out: Vec<CallBody> = Vec::new();
    match split_json(v.clone()) {
        JsonParts::Array(items) => {
            return calls_from_list(&items);
        },
        _ => {},
    }
    match call_from(v) {
        Some(c) => {
            out.push(c);
            assert(body_views(out@) =~= seq![c@]);
        },
        None => {
            assert(body_views(out@) =~= Seq::<(Seq<char>, Json)>::empty());
        },
    }
    out
}

/// The calls among the values that a stream yielded.
pub fn calls_from_steps(steps: &Vec<Result<serde_json::Value, String>>) -> (out: Vec<CallBody>)
    ensures
        body_views(out@) == calls_of_steps(json::step_views(steps@)),
{
    let mut out: Vec<CallBody> = Vec::new();
    let mut i: usize = 0;
    let ghost views = json::step_views(steps@);
    assert(views.take(0) =~= Seq::<Result<Json, Seq<char>>>::empty());
    assert(body_views(out@) =~= Seq::<(Seq<char>, Json)>::empty());
    while i < steps.len()
        invariant
            i <= steps@.len(),
            views == json::step_views(steps@),
            body_views(out@) == calls_of_steps(views.take(i as int)),
        decreases steps@.len() - i,
    {
        let ghost before = out@;
        assert(views.take(i + 1).drop_last() =~= views.take(i as int));
        assert(views.take(i + 1).last() == views[i as int]);
        match &steps[i] {
            Ok(v) => match call_from(v.clone()) {
                Some(c) => {
                    out.push(c);
                    assert(body_views(out@) =~= body_views(before).push(c@));
                },
                None => {},
            },
            Err(_) => {},
        }
        i = i + 1;
    }
    assert(views.take(steps@.len() as int) =~= views);
    out
}

/// Takes off the code fences that may be wrapped round a body.
pub fn strip_body(body: &str) -> (out: String)
    ensures
        out@ == bare_body(body@),
{
    let a = trim(body);
    let b = trim_start_matches(a.as_str(), FENCE_JSON);
    let c = trim_start_matches(b.as_str(), FENCE);
    let d = trim_end_matches(c.as_str(), FENCE);
    trim(d.as_str())
}

/// Reads the calls in a body: one object, an array of objects, or several
/// objects one after the other, with newlines, commas or nothing between them.
pub fn parse_bodies(body: &str) -> (out: Vec<CallBody>)
    ensures
        body_views(out@) == calls_of_body(body@),
        faithful(body@),
{
    let bare = strip_body(body);
    if bare.as_str().is_empty() {
        let out: Vec<CallBody> = Vec::new();
        assert(body_views(out@) =~= Seq::<(Seq<char>, Json)>::empty());
        return out;
    }
    match parse_json(bare.as_str()) {
        Ok(v) => {
            if is_array(&v) && chars_of(bare.as_str())[0] != '[' {
                let out: Vec<CallBody> = Vec::new();
                assert(body_views(out@) =~= Seq::<(Seq<char>, Json)>::empty());
                return out;
            }
            calls_from_value(v)
        },
        Err(_) => {
            if let Some(c) = lenient_from(bare.as_str()) {
                let mut out: Vec<CallBody> = Vec::new();
                out.push(c);
                assert(body_views(out@) =~= seq![c@]);
                return out;
            }
            let values = separate(bare.as_str());
            let steps = stream_json(values.as_str());
            calls_from_steps(&steps)
        },
    }
}

/// The first call of a body, the rest of them left aside.
pub open spec fn first_call(body: Seq<char>) -> Seq<(Seq<char>, Json)> {
    let calls = calls_of_body(body);
    if calls.len() == 0 {
        calls
    } else {
        calls.take(1)
    }
}

/// Reads the one call that a canonical block is meant to hold.
pub fn parse_one_body(body: &str) -> (out: Vec<CallBody>)
    ensures
        body_views(out@) == first_call(body@),
        faithful(body@),
{
    let mut out = parse_bodies(body);
    let ghost all = out@;
    if out.len() > 1 {
        out.truncate(1);
    }
    assert(body_views(out@) =~= first_call(body@)) by {
        assert(body_views(all) == calls_of_body(body@));
    }
    out
}

// ---------------------------------------------------------------------------
// Assembly
// ---------------------------------------------------------------------------

/// The text of the segments in which no call was found, joined.
pub open spec fn kept_text(
    segments: Seq<SegmentView>,
    found: Seq<Seq<(Seq<char>, Json)>>,
) -> Seq<char>
    decreases segments.len(),
{
    if segments.len() == 0 {
        Seq::empty()
    } else {
        let front = kept_text(segments.drop_last(), found.drop_last());
        if found.last().len() == 0 {
            front + segments.last().raw
        } else {
            front
        }
    }
}

/// All the calls that were found, in order.
pub open spec fn all_calls(found: Seq<Seq<(Seq<char>, Json)>>) -> Seq<(Seq<char>, Json)>
    decreases found.len(),
{
    if found.len() == 0 {
        Seq::empty()
    } else {
        all_calls(found.drop_last()) + found.last()
    }
}

/// What each call of each list asks for.
pub open spec fn found_views(found: Seq<Vec<CallBody>>) -> Seq<Seq<(Seq<char>, Json)>> {
    found.map_values(|calls: Vec<CallBody>| body_views(calls@))
}

/// Joins what was found in the segments: the text of those without a call, and
/// the calls of the others.
pub fn assemble(segments: &Vec<Segment>, found: &Vec<Vec<CallBody>>) -> (r: (String, Vec<CallBody>))
    requires
        segments@.len() == found@.len(),
    ensures
        r.0@ == kept_text(segment_views(segments@), found_views(found@)),
        body_views(r.1@) == all_calls(found_views(found@)),
{
    let mut prose = String::new();
    let mut calls: Vec<CallBody> = Vec::new();
    let ghost segs = segment_views(segments@);
    let ghost fnd = found_views(found@);
    assert(body_views(calls@) =~= Seq::<(Seq<char>, Json)>::empty());
    let mut i: usize = 0;
    while i < segments.len()
        invariant
            i <= segments@.len(),
            segments@.len() == found@.len(),
            segs == segment_views(segments@),
            fnd == found_views(found@),
            prose@ == kept_text(segs.take(i as int), fnd.take(i as int)),
            body_views(calls@) == all_calls(fnd.take(i as int)),
        decreases segments@.len() - i,
    {
        proof {
            assert(segs.take(i + 1).drop_last() =~= segs.take(i as int));
            assert(fnd.take(i + 1).drop_last() =~= fnd.take(i as int));
            assert(fnd.take(i + 1).last() == body_views(found@[i as int]@));
            assert(segs.take(i + 1).last() == segments@[i as int]@);
        }
        let here = &found[i];
        if here.len() == 0 {
            prose.append(segments[i].raw.as_str());
        }
        let mut k: usize = 0;
        while k < here.len()
            invariant
                k <= here@.len(),
                body_views(calls@) == all_calls(fnd.take(i as int)) + body_views(here@).take(
                    k as int,
                ),
            decreases here@.len() - k,
        {
            let ghost before = calls@;
            let call = CallBody { name: here[k].name.clone(), arguments: here[k].arguments.clone() };
            calls.push(call);
            proof {
                assert(body_views(calls@) =~= body_views(before).push(call@));
                assert(call@ == here@[k as int]@);
                assert(body_views(here@).take(k + 1) =~= body_views(here@).take(k as int).push(
                    body_views(here@)[k as int],
                ));
                assert(body_views(calls@) =~= all_calls(fnd.take(i as int)) + body_views(
                    here@,
                ).take(k + 1));
            }
            k = k + 1;
        }
        assert(body_views(here@).take(here@.len() as int) =~= body_views(here@));
        i = i + 1;
    }
    assert(segs.take(i as int) =~= segs);
    assert(fnd.take(i as int) =~= fnd);
    (prose, calls)
}

/// The bodies among the segments are read as what they were written as.
pub open spec fn all_faithful(segments: Seq<SegmentView>) -> bool {
    forall|k: int|
        0 <= k < segments.len() && (#[trigger] segments[k]).body is Some ==> faithful(
            text::trimmed(segments[k].body->0),
        )
}

/// What the canonical blocks among the segments hold, one call at most each.
pub open spec fn canonical_calls(segments: Seq<SegmentView>) -> Seq<Seq<(Seq<char>, Json)>> {
    segments.map_values(
        |s: SegmentView|
            match s.body {
                Some(b) => first_call(text::trimmed(b)),
                None => Seq::empty(),
            },
    )
}

/// What the fenced blocks among the segments hold.
pub open spec fn fenced_calls(segments: Seq<SegmentView>) -> Seq<Seq<(Seq<char>, Json)>> {
    segments.map_values(
        |s: SegmentView|
            match s.body {
                Some(b) => calls_of_body(text::trimmed(b)),
                None => Seq::empty(),
            },
    )
}

/// Reads the canonical blocks among the segments.
fn read_canonical(segments: &Vec<Segment>) -> (found: Vec<Vec<CallBody>>)
    ensures
        found@.len() == segments@.len(),
        found_views(found@) == canonical_calls(segment_views(segments@)),
        all_faithful(segment_views(segments@)),
{
    let mut found: Vec<Vec<CallBody>> = Vec::new();
    let mut i: usize = 0;
    while i < segments.len()
        invariant
            i <= segments@.len(),
            found@.len() == i,
            forall|k: int|
                0 <= k < i ==> #[trigger] body_views(found@[k]@) == canonical_calls(
                    segment_views(segments@),
                )[k],
            all_faithful(segment_views(segments@).take(i as int)),
        decreases segments@.len() - i,
    {
        assert(segment_views(segments@)[i as int] == segments@[i as int]@);
        let calls = match &segments[i].body {
            Some(b) => {
                let t = trim(b.as_str());
                parse_one_body(t.as_str())
            },
            None => {
                let none: Vec<CallBody> = Vec::new();
                assert(body_views(none@) =~= Seq::<(Seq<char>, Json)>::empty());
                none
            },
        };
        found.push(calls);
        proof {
            let all = segment_views(segments@);
            assert forall|k: int|
                0 <= k < i + 1 && (#[trigger] all.take(i + 1)[k]).body is Some implies faithful(
                text::trimmed(all.take(i + 1)[k].body->0),
            ) by {
                if k < i {
                    assert(all.take(i as int)[k] == all[k]);
                }
            }
        }
        i = i + 1;
    }
    assert(segment_views(segments@).take(segments@.len() as int) =~= segment_views(segments@));
    assert(found_views(found@) =~= canonical_calls(segment_views(segments@)));
    found
}

/// Reads the fenced blocks among the segments.
fn read_fenced(segments: &Vec<Segment>) -> (found: Vec<Vec<CallBody>>)
    ensures
        found@.len() == segments@.len(),
        found_views(found@) == fenced_calls(segment_views(segments@)),
{
    let mut found: Vec<Vec<CallBody>> = Vec::new();
    let mut i: usize = 0;
    while i < segments.len()
        invariant
            i <= segments@.len(),
            found@.len() == i,
            forall|k: int|
                0 <= k < i ==> #[trigger] body_views(found@[k]@) == fenced_calls(
                    segment_views(segments@),
                )[k],
        decreases segments@.len() - i,
    {
        assert(segment_views(segments@)[i as int] == segments@[i as int]@);
        let calls = match &segments[i].body {
            Some(b) => {
                let t = trim(b.as_str());
                parse_bodies(t.as_str())
            },
            None => {
                let none: Vec<CallBody> = Vec::new();
                assert(body_views(none@) =~= Seq::<(Seq<char>, Json)>::empty());
                none
            },
        };
        found.push(calls);
        i = i + 1;
    }
    assert(found_views(found@) =~= fenced_calls(segment_views(segments@)));
    found
}

/// Searches a text for fenced tool calls: the calls, and the text without the
/// fences they stood in.
pub fn parse_fenced_fallback(text: &str) -> (r: (Vec<CallBody>, String))
    ensures
        body_views(r.0@) == all_calls(fenced_calls(fenced(text@))),
        r.1@ == kept_text(fenced(text@), fenced_calls(fenced(text@))),
{
    let segments = fenced_segments(text);
    let found = read_fenced(&segments);
    let (prose, calls) = assemble(&segments, &found);
    (calls, prose)
}

// ---------------------------------------------------------------------------
// The parser
// ---------------------------------------------------------------------------

/// Result of scanning a model output for tool calls.
#[derive(Debug, Default)]
pub struct ParseOutcome {
    /// Prose text the user should see: everything outside the blocks that were
    /// read as tool calls.
    pub prose: String,
    pub tool_calls: Vec<ParsedToolCall>,
}

/// What each extracted call asks for.
pub open spec fn call_views(calls: Seq<ParsedToolCall>) -> Seq<(Seq<char>, Json)> {
    calls.map_values(|c: ParsedToolCall| (c.name@, json::json_view(c.arguments)))
}

/// Every extracted call has an id made from some UUID.
pub open spec fn ids_made(calls: Seq<ParsedToolCall>) -> bool {
    forall|i: int|
        0 <= i < calls.len() ==> exists|u: u128| (#[trigger] calls[i]).id@ == #[trigger] crate::tools::call_id_text(u)
}

/// The calls in a model output: those of its canonical blocks, or, where it has
/// no opening tag at all, those of its fences.
pub open spec fn parsed_calls(output: Seq<char>) -> Seq<(Seq<char>, Json)> {
    if text::has_text(output, OPEN@) {
        all_calls(canonical_calls(canonical(output)))
    } else {
        all_calls(fenced_calls(fenced(output)))
    }
}

/// The prose in a model output: what stands outside the blocks that were read as
/// calls, trimmed.
pub open spec fn parsed_prose(output: Seq<char>) -> Seq<char> {
    if text::has_text(output, OPEN@) {
        text::trimmed(kept_text(canonical(output), canonical_calls(canonical(output))))
    } else {
        text::trimmed(kept_text(fenced(output), fenced_calls(fenced(output))))
    }
}

/// Gives a call the id made from `id`.
pub fn make_call(body: CallBody, id: u128) -> (call: ParsedToolCall)
    ensures
        call.id@ == crate::tools::call_id_text(id),
        call.name@ == body.name@,
        json::json_view(call.arguments) == json::json_view(body.arguments),
{
    ParsedToolCall { id: call_id(id), name: body.name, arguments: body.arguments }
}

/// Extracts the tool calls and the prose of a model output. The ids of the calls
/// are random. A turn of the assistant that was written down with its tool calls is read
/// as the same prose and the same calls.
pub fn parse(output: &str) -> (out: ParseOutcome)
    ensures
        out.prose@ == parsed_prose(output@),
        call_views(out.tool_calls@) == parsed_calls(output@),
        ids_made(out.tool_calls@),
        forall|prose: Seq<char>, calls: Seq<(Seq<char>, Json)>|
            #![trigger markup::assistant_text(prose, calls)]
            output@ == markup::assistant_text(prose, calls) && markup::rereadable(prose, calls)
                ==> out.prose@ == prose && call_views(out.tool_calls@) == calls,
{
    let v = chars_of(output);
    let open = chars_of(OPEN);
    proof {
        text::lemma_has_text(output@, OPEN@);
        assert forall|prose: Seq<char>, calls: Seq<(Seq<char>, Json)>|
            #![trigger markup::assistant_text(prose, calls)]
            output@ == markup::assistant_text(prose, calls) && markup::rereadable(
                prose,
                calls,
            ) implies text::has_text(output@, OPEN@) by {
            markup::lemma_turn_has_tag(prose, calls);
        }
    }
    let (prose, bodies) = if find_text(&v, &open, 0).is_some() {
        let segments = canonical_segments(output);
        let found = read_canonical(&segments);
        proof {
            assert forall|prose: Seq<char>, calls: Seq<(Seq<char>, Json)>|
                #![trigger markup::assistant_text(prose, calls)]
                output@ == markup::assistant_text(prose, calls) && markup::rereadable(
                    prose,
                    calls,
                ) implies parsed_prose(output@) == prose && parsed_calls(output@) == calls by {
                markup::lemma_turn_reread(prose, calls);
            }
        }
        assemble(&segments, &found)
    } else {
        let (calls, prose) = parse_fenced_fallback(output);
        (prose, calls)
    };
    let mut tool_calls: Vec<ParsedToolCall> = Vec::new();
    let mut i: usize = 0;
    while i < bodies.len()
        invariant
            i <= bodies@.len(),
            tool_calls@.len() == i,
            forall|k: int|
                0 <= k < i ==> (#[trigger] call_views(tool_calls@)[k]) == body_views(bodies@)[k],
            ids_made(tool_calls@),
        decreases bodies@.len() - i,
    {
        let ghost before = tool_calls@;
        let body = CallBody { name: bodies[i].name.clone(), arguments: bodies[i].arguments.clone() };
        let id = new_uuid();
        let call = make_call(body, id);
        tool_calls.push(call);
        proof {
            assert(body_views(bodies@)[i as int] == bodies@[i as int]@);
            assert forall|k: int| 0 <= k < i + 1 implies (#[trigger] call_views(tool_calls@)[k])
                == body_views(bodies@)[k] by {
                if k < i {
                    assert(call_views(before)[k] == body_views(bodies@)[k]);
                    assert(tool_calls@[k] == before[k]);
                }
            }
            assert forall|k: int| 0 <= k < tool_calls@.len() implies exists|u: u128|
                (#[trigger] tool_calls@[k]).id@ == #[trigger] crate::tools::call_id_text(u) by {
                if k < i {
                    assert(tool_calls@[k] == before[k]);
                } else {
                    assert(tool_calls@[k].id@ == crate::tools::call_id_text(id));
                }
            }
        }
        i = i + 1;
    }
    assert(call_views(tool_calls@) =~= body_views(bodies@));
    ParseOutcome { prose: trim(prose.as_str()), tool_calls }
}

// ---------------------------------------------------------------------------
// Laws
// ---------------------------------------------------------------------------

/// The text of all segments, joined.
pub open spec fn joined(segments: Seq<SegmentView>) -> Seq<char>
    decreases segments.len(),
{
    if segments.len() == 0 {
        Seq::empty()
    } else {
        joined(segments.drop_last()) + segments.last().raw
    }
}

/// Joining two lists of segments joins their texts.
proof fn lemma_joined_concat(a: Seq<SegmentView>, b: Seq<SegmentView>)
    ensures
        joined(a + b) == joined(a) + joined(b),
    decreases b.len(),
{
    if b.len() == 0 {
        assert(a + b =~= a);
        assert(joined(a) + joined(b) =~= joined(a));
    } else {
        assert((a + b).drop_last() =~= a + b.drop_last());
        lemma_joined_concat(a, b.drop_last());
        assert(joined(a + b) =~= joined(a) + joined(b));
    }
}

/// The text of one or two segments.
proof fn lemma_joined_small(a: SegmentView, b: SegmentView)
    ensures
        joined(seq![a]) == a.raw,
        joined(seq![a, b]) == a.raw + b.raw,
{
    reveal_with_fuel(joined, 3);
    assert(seq![a].drop_last() =~= Seq::<SegmentView>::empty());
    assert(joined(seq![a]) =~= a.raw);
    assert(seq![a, b].drop_last() =~= seq![a]);
    assert(joined(seq![a, b]) =~= a.raw + b.raw);
}

/// Cutting a text into canonical blocks and prose loses nothing: the segments,
/// joined, are the text.
pub proof fn law_canonical_lossless(t: Seq<char>)
    ensures
        joined(canonical(t)) == t,
    decreases t.len(),
{
    lemma_block_bounds(t);
    match text::first_at(t, OPEN@) {
        None => {
            lemma_joined_small(prose_segment(t), prose_segment(t));
        },
        Some(i) => {
            let start = i + OPEN@.len();
            match text::find_from(t, CLOSE@, start) {
                None => {
                    lemma_joined_small(prose_segment(t.take(i)), prose_segment(t.skip(i)));
                    assert(t.take(i) + t.skip(i) =~= t);
                },
                Some(j) => {
                    let end = j + CLOSE@.len();
                    let lead = prose_segment(t.take(i));
                    let block = SegmentView {
                        raw: t.subrange(i, end),
                        body: Some(t.subrange(start, j)),
                    };
                    law_canonical_lossless(t.skip(end));
                    lemma_joined_small(lead, block);
                    lemma_joined_concat(seq![lead, block], canonical(t.skip(end)));
                    assert(t.take(i) + t.subrange(i, end) + t.skip(end) =~= t);
                },
            }
        },
    }
}

/// Cutting a text into fenced blocks and prose loses nothing: the segments,
/// joined, are the text.
pub proof fn law_fenced_lossless(t: Seq<char>)
    ensures
        joined(fenced(t)) == t,
    decreases t.len(),
{
    lemma_fence_bounds(t);
    match text::first_at(t, FENCE@) {
        None => {
            lemma_joined_small(prose_segment(t), prose_segment(t));
        },
        Some(i) => {
            let start = fence_body_start(t, i);
            match text::find_from(t, FENCE@, start) {
                None => {
                    lemma_joined_small(prose_segment(t.take(i)), prose_segment(t.skip(i)));
                    assert(t.take(i) + t.skip(i) =~= t);
                },
                Some(j) => {
                    let end = j + FENCE@.len();
                    let lead = prose_segment(t.take(i));
                    let block = SegmentView {
                        raw: t.subrange(i, end),
                        body: Some(t.subrange(start, j)),
                    };
                    law_fenced_lossless(t.skip(end));
                    lemma_joined_small(lead, block);
                    lemma_joined_concat(seq![lead, block], fenced(t.skip(end)));
                    assert(t.take(i) + t.subrange(i, end) + t.skip(end) =~= t);
                },
            }
        },
    }
}

/// Where nothing was found, everything is kept.
proof fn lemma_nothing_found(segments: Seq<SegmentView>, found: Seq<Seq<(Seq<char>, Json)>>)
    requires
        segments.len() == found.len(),
        all_calls(found).len() == 0,
    ensures
        kept_text(segments, found) == joined(segments),
    decreases segments.len(),
{
    if segments.len() > 0 {
        assert(all_calls(found) == all_calls(found.drop_last()) + found.last());
        lemma_nothing_found(segments.drop_last(), found.drop_last());
    }
}

/// No text is lost on an output without tool calls: a malformed block, an
/// unterminated one and a fence that holds something else all stay, and the
/// prose is the whole output, trimmed.
pub proof fn law_no_call_keeps_text(output: Seq<char>)
    requires
        parsed_calls(output).len() == 0,
    ensures
        parsed_prose(output) == text::trimmed(output),
{
    if text::has_text(output, OPEN@) {
        lemma_nothing_found(canonical(output), canonical_calls(canonical(output)));
        law_canonical_lossless(output);
    } else {
        lemma_nothing_found(fenced(output), fenced_calls(fenced(output)));
        law_fenced_lossless(output);
    }
}

/// An output with neither an opening tag nor a fence is prose alone.
pub proof fn law_plain_prose(output: Seq<char>)
    requires
        !text::has_text(output, OPEN@),
        !text::has_text(output, FENCE@),
    ensures
        parsed_calls(output).len() == 0,
        parsed_prose(output) == text::trimmed(output),
{
    text::lemma_has_text(output, FENCE@);
    let segments = fenced(output);
    let found = fenced_calls(segments);
    assert(segments =~= seq![prose_segment(output)]);
    reveal_with_fuel(all_calls, 2);
    assert(found =~= seq![Seq::<(Seq<char>, Json)>::empty()]);
    assert(found.drop_last() =~= Seq::<Seq<(Seq<char>, Json)>>::empty());
    assert(all_calls(found) =~= Seq::<(Seq<char>, Json)>::empty());
    law_no_call_keeps_text(output);
}

/// An output whose opening tag is never closed is prose alone.
pub proof fn law_unterminated_block(output: Seq<char>)
    requires
        text::first_at(output, OPEN@) matches Some(i) && text::find_from(
            output,
            CLOSE@,
            i + OPEN@.len(),
        ) is None,
    ensures
        parsed_calls(output).len() == 0,
        parsed_prose(output) == text::trimmed(output),
{
    text::lemma_has_text(output, OPEN@);
    let i = text::first_at(output, OPEN@)->0;
    let segments = canonical(output);
    let none = Seq::<(Seq<char>, Json)>::empty();
    assert(segments =~= seq![prose_segment(output.take(i)), prose_segment(output.skip(i))]);
    let found = canonical_calls(segments);
    reveal_with_fuel(all_calls, 3);
    assert(found =~= seq![none, none]);
    assert(found.drop_last() =~= seq![none]);
    assert(seq![none].drop_last() =~= Seq::<Seq<(Seq<char>, Json)>>::empty());
    assert(all_calls(seq![none]) =~= none);
    assert(all_calls(found) =~= none);
    law_no_call_keeps_text(output);
}

/// The canonical format takes precedence: with an opening tag in the output, what
/// comes out is what the canonical blocks hold, one call at most for each, and
/// no fence is read.
pub proof fn law_canonical_precedence(output: Seq<char>)
    requires
        text::has_text(output, OPEN@),
    ensures
        parsed_calls(output) == all_calls(canonical_calls(canonical(output))),
        parsed_calls(output).len() <= canonical(output).len(),
{
    lemma_one_call_each(canonical(output));
}

/// Canonical blocks hold one call at most each.
proof fn lemma_one_call_each(segments: Seq<SegmentView>)
    ensures
        all_calls(canonical_calls(segments)).len() <= segments.len(),
    decreases segments.len(),
{
    if segments.len() > 0 {
        let found = canonical_calls(segments);
        assert(found.drop_last() =~= canonical_calls(segments.drop_last()));
        lemma_one_call_each(segments.drop_last());
    } else {
        assert(canonical_calls(segments) =~= Seq::<Seq<(Seq<char>, Json)>>::empty());
    }
}

/// The calls of two lists are those of the one, then those of the other.
pub proof fn lemma_all_calls_concat(
    a: Seq<Seq<(Seq<char>, Json)>>,
    b: Seq<Seq<(Seq<char>, Json)>>,
)
    ensures
        all_calls(a + b) == all_calls(a) + all_calls(b),
    decreases b.len(),
{
    if b.len() == 0 {
        assert(a + b =~= a);
        assert(all_calls(a) + all_calls(b) =~= all_calls(a));
    } else {
        assert((a + b).drop_last() =~= a + b.drop_last());
        lemma_all_calls_concat(a, b.drop_last());
        assert(all_calls(a + b) =~= all_calls(a) + all_calls(b));
    }
}

/// What is kept of two lists of segments is what is kept of the one, then what is kept
/// of the other.
pub proof fn lemma_kept_text_concat(
    a: Seq<SegmentView>,
    b: Seq<SegmentView>,
    found_a: Seq<Seq<(Seq<char>, Json)>>,
    found_b: Seq<Seq<(Seq<char>, Json)>>,
)
    requires
        a.len() == found_a.len(),
        b.len() == found_b.len(),
    ensures
        kept_text(a + b, found_a + found_b) == kept_text(a, found_a) + kept_text(b, found_b),
    decreases b.len(),
{
    if b.len() == 0 {
        assert(a + b =~= a);
        assert(found_a + found_b =~= found_a);
        assert(kept_text(a, found_a) + kept_text(b, found_b) =~= kept_text(a, found_a));
    } else {
        assert((a + b).drop_last() =~= a + b.drop_last());
        assert((found_a + found_b).drop_last() =~= found_a + found_b.drop_last());
        lemma_kept_text_concat(a, b.drop_last(), found_a, found_b.drop_last());
        assert(kept_text(a + b, found_a + found_b) =~= kept_text(a, found_a) + kept_text(
            b,
            found_b,
        ));
    }
}

/// A scan of two texts goes on with the second where the first left it.
proof fn lemma_scan_concat(at: Scan, a: Seq<char>, b: Seq<char>)
    ensures
        scan(at, a + b) == scan(scan(at, a), b),
        separated(at, a + b) == separated(at, a) + separated(scan(at, a), b),
    decreases b.len(),
{
    if b.len() == 0 {
        assert(a + b =~= a);
        assert(separated(at, a) + separated(scan(at, a), b) =~= separated(at, a));
    } else {
        assert((a + b).drop_last() =~= a + b.drop_last());
        lemma_scan_concat(at, a, b.drop_last());
        assert(separated(at, a + b) =~= separated(at, a) + separated(scan(at, a), b));
    }
}

/// Values may have commas between them: behind a text whose brackets and strings are
/// closed, a comma is as good as a space.
pub proof fn law_commas_separate(a: Seq<char>, b: Seq<char>)
    requires
        scan(outside(), a) == outside(),
    ensures
        separated(outside(), a + ","@ + b) == separated(outside(), a) + " "@ + separated(
            outside(),
            b,
        ),
        separated(outside(), a + ","@ + b) == separated(outside(), a + " "@ + b),
{
    reveal_strlit(",");
    reveal_strlit(" ");
    lemma_scan_concat(outside(), a, ","@);
    lemma_scan_concat(outside(), a + ","@, b);
    lemma_scan_concat(outside(), a, " "@);
    lemma_scan_concat(outside(), a + " "@, b);
    assert(","@.drop_last() =~= Seq::<char>::empty());
    assert(" "@.drop_last() =~= Seq::<char>::empty());
    reveal_with_fuel(scan, 2);
    reveal_with_fuel(separated, 2);
    assert(separated(outside(), ","@) =~= " "@);
    assert(separated(outside(), " "@) =~= " "@);
}

/// A text without commas between its values is read as it is: nothing is changed but
/// commas, and those outside of brackets and strings alone.
pub proof fn law_only_commas_change(s: Seq<char>, i: int)
    requires
        0 <= i < s.len(),
    ensures
        separated(outside(), s).len() == s.len(),
        separated(outside(), s)[i] == separator(scan(outside(), s.take(i)), s[i]),
    decreases s.len(),
{
    let front = s.drop_last();
    if i < s.len() - 1 {
        law_only_commas_change(front, i);
        assert(front.take(i) =~= s.take(i));
    } else {
        assert(s.take(i) =~= front);
        if front.len() > 0 {
            law_only_commas_change(front, 0);
        } else {
            assert(separated(outside(), front).len() == 0);
        }
    }
}

/// An array of anything but objects with a name holds no call.
pub proof fn law_other_arrays_are_no_calls(items: Seq<Json>)
    requires
        forall|i: int| 0 <= i < items.len() ==> (#[trigger] items[i]) !is Object,
    ensures
        calls_of_value(Json::Array(items)).len() == 0,
{
    lemma_no_objects(items);
}

proof fn lemma_no_objects(items: Seq<Json>)
    requires
        forall|i: int| 0 <= i < items.len() ==> (#[trigger] items[i]) !is Object,
    ensures
        calls_of_list(items).len() == 0,
    decreases items.len(),
{
    if items.len() > 0 {
        assert(items[items.len() - 1] !is Object);
        lemma_no_objects(items.drop_last());
    }
}

// ---------------------------------------------------------------------------
// How outputs are read
// ---------------------------------------------------------------------------

/// The prose in a model output before it is trimmed.
pub open spec fn raw_prose(output: Seq<char>) -> Seq<char> {
    if text::has_text(output, OPEN@) {
        kept_text(canonical(output), canonical_calls(canonical(output)))
    } else {
        kept_text(fenced(output), fenced_calls(fenced(output)))
    }
}

/// The prose that is shown has no white space at its ends.
pub proof fn law_prose_is_trimmed(output: Seq<char>)
    ensures
        parsed_prose(output) == text::trimmed(raw_prose(output)),
{
}

/// The first occurrence of a text from a position on.
pub open spec fn first_from(t: Seq<char>, what: Seq<char>, from: int, i: int) -> bool {
    &&& from <= i
    &&& text::occurs_at(t, what, i)
    &&& forall|k: int| from <= k < i ==> !#[trigger] text::occurs_at(t, what, k)
}

/// No occurrence of a text from a position on.
pub open spec fn none_from(t: Seq<char>, what: Seq<char>, from: int) -> bool {
    forall|k: int| from <= k ==> !#[trigger] text::occurs_at(t, what, k)
}

/// Where the body of a fence at `i` starts: behind the fence with its label, and behind the
/// line break.
pub open spec fn inside_fence(t: Seq<char>, i: int) -> int {
    let label: int = if text::occurs_at(t, "```json"@, i) {
        i + 7
    } else {
        i + 3
    };
    if label < t.len() && t[label] == '\n' {
        label + 1
    } else {
        label
    }
}

/// An output without an opening tag is read fence by fence: the calls are those of the body
/// of the first fence, and behind them those of what follows it. What stands before the
/// fence is prose, the fence itself where it holds no call, and then the prose of what
/// follows.
pub proof fn law_fences_are_read_in_turn(t: Seq<char>, i: int, j: int)
    requires
        !text::has_text(t, "<tool_call>"@),
        first_from(t, "```"@, 0, i),
        first_from(t, "```"@, inside_fence(t, i), j),
    ensures
        ({
            let calls = calls_of_body(text::trimmed(t.subrange(inside_fence(t, i), j)));
            let rest = t.skip(j + 3);
            &&& parsed_calls(t) == calls + parsed_calls(rest)
            &&& raw_prose(t) == t.take(i) + (if calls.len() == 0 {
                t.subrange(i, j + 3)
            } else {
                Seq::empty()
            }) + raw_prose(rest)
        }),
{
    reveal_strlit("```");
    reveal_strlit("```json");
    let rest = t.skip(j + 3);
    lemma_no_tag_behind(t, j + 3);
    lemma_fence_bounds(t);
    lemma_found_first(t, FENCE@, 0, i);
    lemma_found_first(t, FENCE@, inside_fence(t, i), j);
    assert(fence_body_start(t, i) == inside_fence(t, i));
    let lead = prose_segment(t.take(i));
    let block = SegmentView {
        raw: t.subrange(i, j + 3),
        body: Some(t.subrange(inside_fence(t, i), j)),
    };
    assert(fenced(t) == seq![lead, block] + fenced(rest));
    let here = fenced_calls(seq![lead, block]);
    assert(fenced_calls(fenced(t)) =~= here + fenced_calls(fenced(rest)));
    lemma_all_calls_concat(here, fenced_calls(fenced(rest)));
    lemma_kept_text_concat(seq![lead, block], fenced(rest), here, fenced_calls(fenced(rest)));
    lemma_two_segments(lead, block, here);
}

/// A fence that is never closed holds no call, and neither does a text without one: all of
/// it is prose.
pub proof fn law_open_fence_is_prose(t: Seq<char>, i: int)
    requires
        !text::has_text(t, "<tool_call>"@),
        none_from(t, "```"@, 0) || (first_from(t, "```"@, 0, i) && none_from(
            t,
            "```"@,
            inside_fence(t, i),
        )),
    ensures
        parsed_calls(t) == Seq::<(Seq<char>, Json)>::empty(),
        raw_prose(t) == t,
{
    reveal_strlit("```");
    reveal_strlit("```json");
    lemma_fence_bounds(t);
    text::lemma_find_from(t, FENCE@, 0);
    let none = Seq::<(Seq<char>, Json)>::empty();
    if none_from(t, "```"@, 0) {
        assert(text::first_at(t, FENCE@) is None);
        let lead = prose_segment(t);
        assert(fenced(t) == seq![lead]);
        assert(fenced_calls(fenced(t)) =~= seq![none]);
        lemma_one_segment(lead);
    } else {
        lemma_found_first(t, FENCE@, 0, i);
        text::lemma_find_from(t, FENCE@, inside_fence(t, i));
        assert(fence_body_start(t, i) == inside_fence(t, i));
        let lead = prose_segment(t.take(i));
        let tail = prose_segment(t.skip(i));
        assert(fenced(t) == seq![lead, tail]);
        let here = fenced_calls(seq![lead, tail]);
        assert(here =~= seq![none, none]);
        lemma_two_segments(lead, tail, here);
        assert(t.take(i) + t.skip(i) =~= t);
    }
}

/// An output with an opening tag is read tag by tag: a block holds one call, the first of its
/// body, and behind it come the calls of the blocks that follow. What stands before the block
/// is prose, the block itself where it holds no call, and then the prose of what follows;
/// where no further tag follows that is all of it, whatever fences there are.
pub proof fn law_tags_are_read_in_turn(t: Seq<char>, i: int, j: int)
    requires
        first_from(t, "<tool_call>"@, 0, i),
        first_from(t, "</tool_call>"@, i + 11, j),
    ensures
        ({
            let calls = calls_of_body(text::trimmed(t.subrange(i + 11, j)));
            let rest = t.skip(j + 12);
            let more = text::has_text(rest, "<tool_call>"@);
            &&& parsed_calls(t) == (if calls.len() == 0 {
                Seq::<(Seq<char>, Json)>::empty()
            } else {
                seq![calls[0]]
            }) + (if more {
                parsed_calls(rest)
            } else {
                Seq::<(Seq<char>, Json)>::empty()
            })
            &&& raw_prose(t) == t.take(i) + (if calls.len() == 0 {
                t.subrange(i, j + 12)
            } else {
                Seq::empty()
            }) + (if more {
                raw_prose(rest)
            } else {
                rest
            })
        }),
{
    reveal_strlit("<tool_call>");
    reveal_strlit("</tool_call>");
    let rest = t.skip(j + 12);
    lemma_block_bounds(t);
    lemma_found_first(t, OPEN@, 0, i);
    lemma_found_first(t, CLOSE@, i + 11, j);
    text::lemma_has_text(t, OPEN@);
    text::lemma_has_text(rest, OPEN@);
    let lead = prose_segment(t.take(i));
    let block = SegmentView { raw: t.subrange(i, j + 12), body: Some(t.subrange(i + 11, j)) };
    assert(canonical(t) == seq![lead, block] + canonical(rest));
    let here = canonical_calls(seq![lead, block]);
    assert(canonical_calls(canonical(t)) =~= here + canonical_calls(canonical(rest)));
    lemma_all_calls_concat(here, canonical_calls(canonical(rest)));
    lemma_kept_text_concat(
        seq![lead, block],
        canonical(rest),
        here,
        canonical_calls(canonical(rest)),
    );
    let calls = calls_of_body(text::trimmed(t.subrange(i + 11, j)));
    lemma_two_segments(lead, block, here);
    assert(calls.len() > 0 ==> calls.take(1) =~= seq![calls[0]]);
    if text::first_at(rest, OPEN@) is None {
        let none = Seq::<(Seq<char>, Json)>::empty();
        let tail = prose_segment(rest);
        assert(canonical(rest) == seq![tail]);
        assert(canonical_calls(canonical(rest)) =~= seq![none]);
        lemma_one_segment(tail);
    }
}

/// A tag that is never closed opens nothing: the output holds no call, and all of it is
/// prose.
pub proof fn law_open_tag_is_prose(t: Seq<char>, i: int)
    requires
        first_from(t, "<tool_call>"@, 0, i),
        none_from(t, "</tool_call>"@, i + 11),
    ensures
        parsed_calls(t) == Seq::<(Seq<char>, Json)>::empty(),
        raw_prose(t) == t,
{
    reveal_strlit("<tool_call>");
    reveal_strlit("</tool_call>");
    lemma_found_first(t, OPEN@, 0, i);
    text::lemma_has_text(t, OPEN@);
    text::lemma_find_from(t, CLOSE@, i + 11);
    let none = Seq::<(Seq<char>, Json)>::empty();
    let lead = prose_segment(t.take(i));
    let tail = prose_segment(t.skip(i));
    assert(canonical(t) == seq![lead, tail]);
    let here = canonical_calls(seq![lead, tail]);
    assert(here =~= seq![none, none]);
    lemma_two_segments(lead, tail, here);
    assert(t.take(i) + t.skip(i) =~= t);
}

proof fn lemma_found_first(t: Seq<char>, what: Seq<char>, from: int, i: int)
    requires
        0 <= from,
        first_from(t, what, from, i),
    ensures
        text::find_from(t, what, from) == Some(i),
{
    text::lemma_find_from(t, what, from);
    if let Some(k) = text::find_from(t, what, from) {
        if k < i {
            assert(!text::occurs_at(t, what, k));
        }
    }
}

proof fn lemma_no_tag_behind(t: Seq<char>, from: int)
    requires
        !text::has_text(t, OPEN@),
        0 <= from <= t.len(),
    ensures
        !text::has_text(t.skip(from), OPEN@),
{
    if text::has_text(t.skip(from), OPEN@) {
        let i = choose|i: int| text::occurs_at(t.skip(from), OPEN@, i);
        assert(t.skip(from).subrange(i, i + OPEN@.len()) =~= t.subrange(
            from + i,
            from + i + OPEN@.len(),
        ));
        assert(text::occurs_at(t, OPEN@, from + i));
    }
}

proof fn lemma_one_segment(a: SegmentView)
    ensures
        all_calls(seq![Seq::<(Seq<char>, Json)>::empty()]) == Seq::<(Seq<char>, Json)>::empty(),
        kept_text(seq![a], seq![Seq::<(Seq<char>, Json)>::empty()]) == a.raw,
{
    let none = Seq::<(Seq<char>, Json)>::empty();
    reveal_with_fuel(all_calls, 2);
    reveal_with_fuel(kept_text, 2);
    assert(seq![none].drop_last() =~= Seq::<Seq<(Seq<char>, Json)>>::empty());
    assert(seq![a].drop_last() =~= Seq::<SegmentView>::empty());
    assert(all_calls(seq![none]) =~= none);
    assert(kept_text(seq![a], seq![none]) =~= a.raw);
}

proof fn lemma_two_segments(
    a: SegmentView,
    b: SegmentView,
    found: Seq<Seq<(Seq<char>, Json)>>,
)
    requires
        found.len() == 2,
        found[0].len() == 0,
    ensures
        all_calls(found) == found[1],
        kept_text(seq![a, b], found) == a.raw + (if found[1].len() == 0 {
            b.raw
        } else {
            Seq::empty()
        }),
{
    reveal_with_fuel(all_calls, 3);
    reveal_with_fuel(kept_text, 3);
    assert(found.drop_last() =~= seq![found[0]]);
    assert(found.drop_last().drop_last() =~= Seq::<Seq<(Seq<char>, Json)>>::empty());
    assert(seq![a, b].drop_last() =~= seq![a]);
    assert(seq![a].drop_last() =~= Seq::<SegmentView>::empty());
    assert(all_calls(found) =~= found[1]);
    assert(kept_text(seq![a, b], found) =~= a.raw + (if found[1].len() == 0 {
        b.raw
    } else {
        Seq::empty()
    }));
}

/// What a JSON value asks for: an object with a string under `name` asks for the tool of that
/// name, with what stands under `arguments`, or with null.
pub open spec fn asked(j: Json) -> Seq<(Seq<char>, Json)> {
    match j {
        Json::Object(fields) => if fields.contains_key("name"@) && fields["name"@] is Text {
            seq![
                (
                    fields["name"@]->Text_0,
                    if fields.contains_key("arguments"@) {
                        fields["arguments"@]
                    } else {
                        Json::Null
                    },
                ),
            ]
        } else {
            Seq::empty()
        },
        _ => Seq::empty(),
    }
}

/// What the values of a list ask for, one after the other.
pub open spec fn asked_all(items: Seq<Json>) -> Seq<(Seq<char>, Json)>
    decreases items.len(),
{
    if items.len() == 0 {
        Seq::empty()
    } else {
        asked(items[0]) + asked_all(items.skip(1))
    }
}

/// The values that a stream yields.
pub open spec fn yielded(steps: Seq<Result<Json, Seq<char>>>) -> Seq<Json>
    decreases steps.len(),
{
    if steps.len() == 0 {
        Seq::empty()
    } else {
        (match steps[0] {
            Ok(j) => seq![j],
            Err(_) => Seq::empty(),
        }) + yielded(steps.skip(1))
    }
}

/// What a body asks for: what its value does, or, where it is an array, each of its items in
/// turn. Where it cannot be read as one value, nor field by field as one object, each of the
/// values that follow each other in it does.
pub proof fn law_body_asks_for_its_values(x: Seq<char>)
    requires
        x.len() > 0,
        !text::is_white(x.first()) && x.first() != '`',
        !text::is_white(x.last()) && x.last() != '`',
    ensures
        match json::json_parse(x) {
            Ok(Json::Array(items)) => calls_of_body(x) == (if x[0] == '[' {
                asked_all(items)
            } else {
                Seq::empty()
            }),
            Ok(j) => calls_of_body(x) == asked(j),
            Err(_) => lenient_call(x) is None ==> calls_of_body(x) == asked_all(
                yielded(json::json_stream(separated(outside(), x))),
            ),
        },
{
    lemma_bare(x);
    match json::json_parse(x) {
        Ok(Json::Array(items)) => {
            lemma_asked_list(items);
        },
        Ok(j) => {
            lemma_asked(j);
        },
        Err(_) => {
            lemma_asked_steps(json::json_stream(separated(outside(), x)));
        },
    }
}

/// An object that cannot be read as a whole asks for what its `name` and its `arguments` say,
/// as long as these two can be read and stand in it once.
pub proof fn law_other_fields_do_not_matter(
    x: Seq<char>,
    fields: Seq<(Seq<char>, Seq<char>)>,
    n: int,
    name: Seq<char>,
    a: int,
    arguments: Json,
)
    requires
        x.len() > 0,
        !text::is_white(x.first()) && x.first() != '`',
        !text::is_white(x.last()) && x.last() != '`',
        json::json_parse(x) is Err,
        json::json_fields(x) == Ok::<Seq<(Seq<char>, Seq<char>)>, Seq<char>>(fields),
        forall|i: int, j: int|
            0 <= i < j < fields.len() ==> (#[trigger] fields[i]).0 != (#[trigger] fields[j]).0,
        key_count(keys_of(x), "name"@) <= 1,
        key_count(keys_of(x), "arguments"@) <= 1,
        0 <= n < fields.len(),
        fields[n].0 == "name"@,
        json::json_parse("["@ + fields[n].1 + "]"@) == Ok::<Json, Seq<char>>(
            Json::Array(seq![Json::Text(name)]),
        ),
    ensures
        (forall|i: int| 0 <= i < fields.len() ==> (#[trigger] fields[i]).0 != "arguments"@)
            ==> calls_of_body(x) == seq![(name, Json::Null)],
        0 <= a < fields.len() && fields[a].0 == "arguments"@ && json::json_parse(
            "["@ + fields[a].1 + "]"@,
        ) == Ok::<Json, Seq<char>>(Json::Array(seq![arguments])) ==> calls_of_body(x) == seq![
            (name, arguments),
        ],
{
    lemma_bare(x);
    lemma_field_found(fields, n);
    if forall|i: int| 0 <= i < fields.len() ==> (#[trigger] fields[i]).0 != "arguments"@ {
        lemma_field_missing(fields, "arguments"@);
    }
    if 0 <= a < fields.len() {
        lemma_field_found(fields, a);
    }
}

proof fn lemma_field_found(fields: Seq<(Seq<char>, Seq<char>)>, n: int)
    requires
        forall|i: int, j: int|
            0 <= i < j < fields.len() ==> (#[trigger] fields[i]).0 != (#[trigger] fields[j]).0,
        0 <= n < fields.len(),
    ensures
        field_text(fields, fields[n].0) == Some(fields[n].1),
    decreases fields.len(),
{
    if n > 0 {
        let rest = fields.drop_first();
        assert(fields.first() == fields[0]);
        assert(fields[0].0 != fields[n].0);
        assert forall|i: int, j: int| 0 <= i < j < rest.len() implies (#[trigger] rest[i]).0 != (
        #[trigger] rest[j]).0 by {
            assert(rest[i] == fields[i + 1] && rest[j] == fields[j + 1]);
        }
        assert(rest[n - 1] == fields[n]);
        lemma_field_found(rest, n - 1);
    }
}

proof fn lemma_field_missing(fields: Seq<(Seq<char>, Seq<char>)>, key: Seq<char>)
    requires
        forall|i: int| 0 <= i < fields.len() ==> (#[trigger] fields[i]).0 != key,
    ensures
        field_text(fields, key) is None,
    decreases fields.len(),
{
    if fields.len() > 0 {
        let rest = fields.drop_first();
        assert(fields.first() == fields[0]);
        assert forall|i: int| 0 <= i < rest.len() implies (#[trigger] rest[i]).0 != key by {
            assert(rest[i] == fields[i + 1]);
        }
        lemma_field_missing(rest, key);
    }
}

proof fn lemma_asked(j: Json)
    ensures
        (match call_of(j) {
            Some(c) => seq![c],
            None => Seq::<(Seq<char>, Json)>::empty(),
        }) == asked(j),
{
}

proof fn lemma_asked_list(items: Seq<Json>)
    ensures
        calls_of_list(items) == asked_all(items),
    decreases items.len(),
{
    if items.len() > 0 {
        lemma_asked_list(items.drop_last());
        lemma_asked(items.last());
        lemma_asked_push(items.drop_last(), items.last());
        assert(items.drop_last().push(items.last()) =~= items);
        assert(calls_of_list(items) =~= asked_all(items));
    }
}

proof fn lemma_asked_push(items: Seq<Json>, j: Json)
    ensures
        asked_all(items.push(j)) == asked_all(items) + asked(j),
    decreases items.len(),
{
    let more = items.push(j);
    if items.len() > 0 {
        lemma_asked_push(items.skip(1), j);
        assert(more.skip(1) =~= items.skip(1).push(j));
        assert(asked_all(more) =~= asked_all(items) + asked(j));
    } else {
        assert(more.skip(1) =~= Seq::<Json>::empty());
        reveal_with_fuel(asked_all, 2);
        assert(asked_all(more) =~= asked_all(items) + asked(j));
    }
}

proof fn lemma_asked_steps(steps: Seq<Result<Json, Seq<char>>>)
    ensures
        calls_of_steps(steps) == asked_all(yielded(steps)),
    decreases steps.len(),
{
    if steps.len() > 0 {
        let front = steps.drop_last();
        lemma_asked_steps(front);
        lemma_yielded_push(front, steps.last());
        assert(front.push(steps.last()) =~= steps);
        if let Ok(j) = steps.last() {
            lemma_asked(j);
            lemma_asked_push(yielded(front), j);
            assert(yielded(front) + seq![j] =~= yielded(front).push(j));
            assert(calls_of_steps(steps) =~= asked_all(yielded(steps)));
        } else {
            assert(yielded(front) + Seq::empty() =~= yielded(front));
        }
    }
}

proof fn lemma_yielded_push(steps: Seq<Result<Json, Seq<char>>>, r: Result<Json, Seq<char>>)
    ensures
        yielded(steps.push(r)) == yielded(steps) + (match r {
            Ok(j) => seq![j],
            Err(_) => Seq::<Json>::empty(),
        }),
    decreases steps.len(),
{
    let more = steps.push(r);
    let one = match r {
        Ok(j) => seq![j],
        Err(_) => Seq::<Json>::empty(),
    };
    if steps.len() > 0 {
        lemma_yielded_push(steps.skip(1), r);
        assert(more.skip(1) =~= steps.skip(1).push(r));
        assert(yielded(more) =~= yielded(steps) + one);
    } else {
        assert(more.skip(1) =~= Seq::<Result<Json, Seq<char>>>::empty());
        reveal_with_fuel(yielded, 2);
        assert(yielded(more) =~= yielded(steps) + one);
    }
}

/// A body without fences round it is read as it is.
proof fn lemma_bare(x: Seq<char>)
    requires
        x.len() > 0,
        !text::is_white(x.first()) && x.first() != '`',
        !text::is_white(x.last()) && x.last() != '`',
    ensures
        bare_body(x) == x,
        text::trimmed(x) == x,
{
    let e = Seq::<char>::empty();
    text::law_trimmed(e, x, e);
    assert(e + x + e =~= x);
    reveal_strlit("```");
    reveal_strlit("```json");
    lemma_no_fence_ahead(x);
    lemma_no_fence_at_end(x);
}

proof fn lemma_no_fence_ahead(x: Seq<char>)
    requires
        x.len() > 0 ==> x.first() != '`',
    ensures
        text::strip_start(x, FENCE_JSON@) == x,
        text::strip_start(x, FENCE@) == x,
{
    reveal_strlit("```");
    reveal_strlit("```json");
    if text::occurs_at(x, FENCE_JSON@, 0) {
        assert(x.subrange(0, FENCE_JSON@.len() as int)[0] == FENCE_JSON@[0]);
    }
    if text::occurs_at(x, FENCE@, 0) {
        assert(x.subrange(0, FENCE@.len() as int)[0] == FENCE@[0]);
    }
}

proof fn lemma_no_fence_at_end(x: Seq<char>)
    requires
        x.len() > 0 ==> x.last() != '`',
    ensures
        text::strip_end(x, FENCE@) == x,
{
    reveal_strlit("```");
    let at = x.len() - FENCE@.len();
    if text::occurs_at(x, FENCE@, at) {
        assert(x.subrange(at, at + FENCE@.len())[2] == FENCE@[2]);
    }
}

/// Fences round a body, with or without a label, and white space within them make no
/// difference to what it asks for.
#[verifier::rlimit(40)]
pub proof fn law_fences_round_a_body(a: Seq<char>, x: Seq<char>, b: Seq<char>)
    requires
        text::blank(a),
        text::blank(b),
        x.len() > 0,
        !text::is_white(x.first()) && x.first() != '`',
        !text::is_white(x.last()) && x.last() != '`',
    ensures
        calls_of_body("```json"@ + a + x + b + "```"@) == calls_of_body(x),
        a.len() > 0 ==> calls_of_body("```"@ + a + x + b + "```"@) == calls_of_body(x),
        calls_of_body(a + x + b) == calls_of_body(x),
{
    reveal_strlit("```");
    reveal_strlit("```json");
    let e = Seq::<char>::empty();
    let inner = a + x + b;
    lemma_bare(x);
    text::law_trimmed(a, x, b);
    // Nothing of a fence is left inside.
    assert(inner.len() > 0);
    assert(inner.first() != '`') by {
        if a.len() > 0 {
            assert(text::is_white(a[0]));
        }
    }
    assert(inner.last() != '`') by {
        if b.len() > 0 {
            assert(text::is_white(b[b.len() - 1]));
        }
    }
    let closed = inner + "```"@;
    assert(closed.first() == inner.first());
    lemma_no_fence_ahead(closed);
    lemma_no_fence_at_end(inner);
    assert(text::strip_end(closed, FENCE@) == inner) by {
        let at = closed.len() - 3;
        assert(closed.subrange(at, at + 3) =~= FENCE@);
        assert(closed.take(at) =~= inner);
    }
    // With the label.
    let labelled = "```json"@ + closed;
    assert("```json"@ + a + x + b + "```"@ =~= labelled);
    text::law_trimmed(e, labelled, e);
    assert(e + labelled + e =~= labelled);
    assert(labelled.subrange(0, 7) =~= FENCE_JSON@);
    assert(labelled.skip(7) =~= closed);
    assert(text::strip_start(labelled, FENCE_JSON@) == closed);
    assert(bare_body(labelled) == x);
    // Without it.
    let plain = "```"@ + closed;
    assert("```"@ + a + x + b + "```"@ =~= plain);
    text::law_trimmed(e, plain, e);
    assert(e + plain + e =~= plain);
    assert(plain.subrange(0, 3) =~= FENCE@);
    assert(plain.skip(3) =~= closed);
    if a.len() > 0 {
        assert(text::is_white(a[0]));
        assert(plain[3] == a[0]);
        if text::occurs_at(plain, FENCE_JSON@, 0) {
            assert(plain.subrange(0, 7)[3] == FENCE_JSON@[3]);
        }
        assert(text::strip_start(plain, FENCE_JSON@) == plain);
        assert(text::strip_start(plain, FENCE@) == closed);
        assert(bare_body(plain) == x);
    }
    assert(bare_body(inner) == x) by {
        lemma_no_fence_ahead(x);
        lemma_no_fence_at_end(x);
    }
}

// ---------------------------------------------------------------------------
// Commas and keys
// ---------------------------------------------------------------------------

/// Inside of so many brackets, and in no string.
pub open spec fn inside(d: nat) -> Scan {
    Scan { depth: d as int, quoted: false, escaped: false }
}

/// What may stand between the quotes of a string: no quote and no backslash, but a backslash
/// with the character behind it.
pub open spec fn string_body(t: Seq<char>) -> bool
    decreases t.len(),
{
    if t.len() == 0 {
        true
    } else if t[0] == '\\' {
        t.len() > 1 && string_body(t.skip(2))
    } else {
        t[0] != '"' && string_body(t.skip(1))
    }
}

/// A text without quotes and brackets.
pub open spec fn flat(t: Seq<char>) -> bool {
    forall|i: int|
        0 <= i < t.len() ==> #[trigger] t[i] != '"' && t[i] != '{' && t[i] != '[' && t[i] != '}' && t[i]
            != ']'
}

/// A text with spaces in place of its commas.
pub open spec fn spaced(t: Seq<char>) -> Seq<char> {
    t.map_values(
        |c: char|
            if c == ',' {
                ' '
            } else {
                c
            },
    )
}

/// Commas are made spaces outside of all brackets and strings, and nowhere else: an opening
/// bracket leads inside and a closing one out again, and within a string neither brackets
/// nor commas nor escaped quotes count.
pub proof fn law_values_keep_their_commas(d: nat, t: Seq<char>, x: Seq<char>)
    ensures
        outside() == inside(0),
        separated(inside(d), "{"@ + x) == "{"@ + separated(inside(d + 1), x),
        separated(inside(d), "["@ + x) == "["@ + separated(inside(d + 1), x),
        separated(inside(d + 1), "}"@ + x) == "}"@ + separated(inside(d), x),
        separated(inside(d + 1), "]"@ + x) == "]"@ + separated(inside(d), x),
        flat(t) ==> separated(inside(d), t + x) == (if d == 0 {
            spaced(t)
        } else {
            t
        }) + separated(inside(d), x),
        string_body(t) ==> separated(inside(d), "\""@ + t + "\""@ + x) == "\""@ + t + "\""@
            + separated(inside(d), x),
{
    reveal_strlit("{");
    reveal_strlit("[");
    reveal_strlit("}");
    reveal_strlit("]");
    reveal_strlit("\"");
    lemma_one(inside(d), "{"@);
    lemma_one(inside(d), "["@);
    lemma_one(inside(d + 1), "}"@);
    lemma_one(inside(d + 1), "]"@);
    lemma_scan_concat(inside(d), "{"@, x);
    lemma_scan_concat(inside(d), "["@, x);
    lemma_scan_concat(inside(d + 1), "}"@, x);
    lemma_scan_concat(inside(d + 1), "]"@, x);
    if flat(t) {
        lemma_flat(d, t);
        lemma_scan_concat(inside(d), t, x);
    }
    if string_body(t) {
        let q = Scan { depth: d as int, quoted: true, escaped: false };
        lemma_one(inside(d), "\""@);
        lemma_one(q, "\""@);
        lemma_string_body(q, t);
        lemma_scan_concat(inside(d), "\""@, t);
        lemma_scan_concat(inside(d), "\""@ + t, "\""@);
        lemma_scan_concat(inside(d), "\""@ + t + "\""@, x);
    }
}

/// A scan of one character.
proof fn lemma_one(at: Scan, s: Seq<char>)
    requires
        s.len() == 1,
    ensures
        scan(at, s) == scanned(at, s[0]),
        separated(at, s) == seq![separator(at, s[0])],
{
    assert(s.drop_last() =~= Seq::<char>::empty());
    reveal_with_fuel(scan, 2);
    reveal_with_fuel(separated, 2);
    assert(separated(at, s) =~= seq![separator(at, s[0])]);
}

proof fn lemma_flat(d: nat, t: Seq<char>)
    requires
        flat(t),
    ensures
        scan(inside(d), t) == inside(d),
        separated(inside(d), t) == (if d == 0 {
            spaced(t)
        } else {
            t
        }),
    decreases t.len(),
{
    if t.len() > 0 {
        let front = t.drop_last();
        assert forall|i: int| 0 <= i < front.len() implies #[trigger] front[i] != '"' && front[i]
            != '{' && front[i] != '[' && front[i] != '}' && front[i] != ']' by {
            assert(front[i] == t[i]);
        }
        lemma_flat(d, front);
        assert(t[t.len() - 1] != '"');
    }
    assert(separated(inside(d), t) =~= (if d == 0 {
        spaced(t)
    } else {
        t
    }));
}

proof fn lemma_string_body(q: Scan, t: Seq<char>)
    requires
        q.quoted,
        !q.escaped,
        string_body(t),
    ensures
        scan(q, t) == q,
        separated(q, t) == t,
    decreases t.len(),
{
    if t.len() > 0 {
        let n: int = if t[0] == '\\' {
            2
        } else {
            1
        };
        let a = t.take(n);
        let b = t.skip(n);
        assert(t =~= a + b);
        lemma_scan_concat(q, a, b);
        lemma_string_body(q, b);
        if n == 2 {
            let first = t.take(1);
            let second = t.subrange(1, 2);
            assert(a =~= first + second);
            lemma_scan_concat(q, first, second);
            lemma_one(q, first);
            lemma_one(Scan { escaped: true, ..q }, second);
        } else {
            lemma_one(q, a);
        }
        assert(separated(q, t) =~= t);
    } else {
        assert(separated(q, t) =~= t);
    }
}

/// A search for keys that goes on with a text.
spec fn key_run(k: KeyScan, s: Seq<char>) -> KeyScan
    decreases s.len(),
{
    if s.len() == 0 {
        k
    } else {
        key_scanned(key_run(k, s.drop_last()), s.last())
    }
}

proof fn lemma_key_run(k: KeyScan, a: Seq<char>, b: Seq<char>)
    ensures
        key_run(k, a + b) == key_run(key_run(k, a), b),
        key_scan(a + b) == key_run(key_scan(a), b),
    decreases b.len(),
{
    if b.len() == 0 {
        assert(a + b =~= a);
    } else {
        assert((a + b).drop_last() =~= a + b.drop_last());
        lemma_key_run(k, a, b.drop_last());
    }
}

proof fn lemma_key_one(k: KeyScan, s: Seq<char>)
    requires
        s.len() == 1,
    ensures
        key_run(k, s) == key_scanned(k, s[0]),
{
    assert(s.drop_last() =~= Seq::<char>::empty());
    reveal_with_fuel(key_run, 2);
}

/// A search within a string.
proof fn lemma_key_string(k: KeyScan, t: Seq<char>)
    requires
        k.at.quoted,
        !k.at.escaped,
        string_body(t),
    ensures
        key_run(k, t) == (KeyScan {
            open: if k.open.len() > 0 {
                k.open + t
            } else {
                k.open
            },
            ..k
        }),
    decreases t.len(),
{
    if t.len() > 0 {
        let n: int = if t[0] == '\\' {
            2
        } else {
            1
        };
        let a = t.take(n);
        let b = t.skip(n);
        assert(t =~= a + b);
        lemma_key_run(k, a, b);
        let first = t.take(1);
        lemma_key_one(k, first);
        if n == 2 {
            let second = t.subrange(1, 2);
            assert(a =~= first + second);
            lemma_key_run(k, first, second);
            lemma_key_one(key_run(k, first), second);
            assert(k.open.push(t[0]).push(t[1]) =~= k.open + a);
        } else {
            assert(a =~= first);
            assert(k.open.push(t[0]) =~= k.open + a);
        }
        let mid = key_run(k, a);
        lemma_key_string(mid, b);
        assert(k.open + a + b =~= k.open + t);
    } else {
        assert(k.open + t =~= k.open);
    }
}

proof fn lemma_key_flat(k: KeyScan, t: Seq<char>)
    requires
        k.at == inside(1),
        k.open.len() == 0,
        flat(t),
        forall|i: int| 0 <= i < t.len() ==> #[trigger] t[i] != ',',
    ensures
        key_run(k, t) == k,
    decreases t.len(),
{
    if t.len() > 0 {
        let front = t.drop_last();
        assert forall|i: int| 0 <= i < front.len() implies #[trigger] front[i] != ',' && front[i]
            != '"' && front[i] != '{' && front[i] != '[' && front[i] != '}' && front[i] != ']' by {
            assert(front[i] == t[i]);
        }
        lemma_key_flat(k, front);
        assert(t[t.len() - 1] != ',');
    }
}

/// A value that is written without brackets: a string, or a text without quotes, commas and
/// brackets.
pub open spec fn simple_value(v: Seq<char>) -> bool {
    ||| flat(v) && forall|i: int| 0 <= i < v.len() ==> #[trigger] v[i] != ','
    ||| exists|t: Seq<char>| string_body(t) && v == #[trigger] ("\""@ + t + "\""@)
}

/// Fields of an object as they are written, with commas between them.
pub open spec fn fields_written(fields: Seq<(Seq<char>, Seq<char>)>) -> Seq<char>
    decreases fields.len(),
{
    if fields.len() == 0 {
        Seq::empty()
    } else {
        let (key, value) = fields.last();
        let field = "\""@ + key + "\""@ + ":"@ + value;
        if fields.len() == 1 {
            field
        } else {
            fields_written(fields.drop_last()) + ","@ + field
        }
    }
}

/// The keys that are found in an object are those that were written, in their order, each as
/// often as it stands there; a string that is a value is none.
pub proof fn law_keys_are_found(fields: Seq<(Seq<char>, Seq<char>)>)
    requires
        forall|i: int|
            0 <= i < fields.len() ==> string_body((#[trigger] fields[i]).0) && simple_value(
                fields[i].1,
            ),
    ensures
        keys_of("{"@ + fields_written(fields) + "}"@) == fields.map_values(
            |f: (Seq<char>, Seq<char>)| "\""@ + f.0 + "\""@,
        ),
{
    reveal_strlit("}");
    lemma_keys(fields);
    let s = "{"@ + fields_written(fields);
    lemma_key_run(key_scan(s), s, "}"@);
    lemma_key_one(key_scan(s), "}"@);
}

proof fn lemma_keys(fields: Seq<(Seq<char>, Seq<char>)>)
    requires
        forall|i: int|
            0 <= i < fields.len() ==> string_body((#[trigger] fields[i]).0) && simple_value(
                fields[i].1,
            ),
    ensures
        key_scan("{"@ + fields_written(fields)) == (KeyScan {
            at: inside(1),
            fresh: fields.len() == 0,
            open: Seq::empty(),
            found: fields.map_values(|f: (Seq<char>, Seq<char>)| "\""@ + f.0 + "\""@),
        }),
    decreases fields.len(),
{
    reveal_strlit("{");
    reveal_strlit(",");
    let start = key_scan(Seq::empty());
    let opened = KeyScan {
        at: inside(1),
        fresh: true,
        open: Seq::empty(),
        found: Seq::empty(),
    };
    lemma_key_run(start, Seq::empty(), "{"@);
    assert(Seq::empty() + "{"@ =~= "{"@);
    lemma_key_one(start, "{"@);
    assert(key_scan("{"@) == opened);
    let keys = fields.map_values(|f: (Seq<char>, Seq<char>)| "\""@ + f.0 + "\""@);
    if fields.len() == 0 {
        assert("{"@ + fields_written(fields) =~= "{"@);
        assert(keys =~= Seq::<Seq<char>>::empty());
    } else {
        let front = fields.drop_last();
        let (key, value) = fields.last();
        let field = "\""@ + key + "\""@ + ":"@ + value;
        assert(fields[fields.len() - 1] == fields.last());
        let before = front.map_values(|f: (Seq<char>, Seq<char>)| "\""@ + f.0 + "\""@);
        assert(keys =~= before.push("\""@ + key + "\""@));
        let ready = KeyScan { found: before, ..opened };
        let lead = if fields.len() == 1 {
            "{"@
        } else {
            "{"@ + fields_written(front) + ","@
        };
        assert("{"@ + fields_written(fields) =~= lead + field);
        assert(key_scan(lead) == ready) by {
            if fields.len() == 1 {
                assert(before =~= Seq::<Seq<char>>::empty());
            } else {
                assert forall|i: int| 0 <= i < front.len() implies string_body(
                    (#[trigger] front[i]).0,
                ) && simple_value(front[i].1) by {
                    assert(front[i] == fields[i]);
                }
                lemma_keys(front);
                let s = "{"@ + fields_written(front);
                lemma_key_run(key_scan(s), s, ","@);
                lemma_key_one(key_scan(s), ","@);
            }
        }
        lemma_key_run(ready, lead, field);
        lemma_field_keys(ready, key, value);
    }
}

/// One field, behind the brace or a comma.
proof fn lemma_field_keys(k: KeyScan, key: Seq<char>, value: Seq<char>)
    requires
        k.at == inside(1),
        k.fresh,
        k.open.len() == 0,
        string_body(key),
        simple_value(value),
    ensures
        key_run(k, "\""@ + key + "\""@ + ":"@ + value) == (KeyScan {
            fresh: false,
            open: Seq::empty(),
            found: k.found.push("\""@ + key + "\""@),
            ..k
        }),
{
    reveal_strlit("\"");
    reveal_strlit(":");
    let quote = "\""@;
    let a = quote + key;
    let b = a + quote;
    let c = b + ":"@;
    lemma_key_run(k, quote, key);
    lemma_key_one(k, quote);
    let inner = key_run(k, quote);
    assert(inner.open =~= quote);
    lemma_key_string(inner, key);
    lemma_key_run(k, a, quote);
    lemma_key_one(key_run(k, a), quote);
    assert((quote + key).push('"') =~= quote + key + quote);
    let found = key_run(k, b);
    assert(found.open =~= Seq::<char>::empty());
    assert(found == (KeyScan {
        fresh: false,
        open: Seq::empty(),
        found: k.found.push(b),
        ..k
    }));
    lemma_key_run(k, b, ":"@);
    lemma_key_one(found, ":"@);
    assert(key_run(k, c) == found);
    lemma_key_run(k, c, value);
    if flat(value) && forall|i: int| 0 <= i < value.len() ==> #[trigger] value[i] != ',' {
        lemma_key_flat(found, value);
    } else {
        let t = choose|t: Seq<char>| string_body(t) && value == #[trigger] (quote + t + quote);
        lemma_key_run(found, quote, t);
        lemma_key_one(found, quote);
        lemma_key_string(key_run(found, quote), t);
        lemma_key_run(found, quote + t, quote);
        lemma_key_one(key_run(found, quote + t), quote);
        assert(key_run(found, value) == found);
    }
}

/// An object that cannot be read as a whole asks for nothing on account of its fields where
/// its name or its arguments stand in it twice, where it has no name or one that is no
/// string, and where its arguments cannot be read.
pub proof fn law_doubtful_fields_ask_for_nothing(
    x: Seq<char>,
    fields: Seq<(Seq<char>, Seq<char>)>,
)
    requires
        json::json_fields(x) == Ok::<Seq<(Seq<char>, Seq<char>)>, Seq<char>>(fields),
    ensures
        key_count(keys_of(x), "name"@) > 1 || key_count(keys_of(x), "arguments"@) > 1
            ==> lenient_call(x) is None,
        (forall|i: int| 0 <= i < fields.len() ==> (#[trigger] fields[i]).0 != "name"@)
            ==> lenient_call(x) is None,
        forall|i: int|
            0 <= i < fields.len() && (#[trigger] fields[i]).0 == "name"@ && (forall|j: int|
                0 <= j < i ==> (#[trigger] fields[j]).0 != "name"@) && !(json::json_parse(
                "["@ + fields[i].1 + "]"@,
            ) matches Ok(Json::Array(items)) && items.len() == 1 && items[0] is Text)
                ==> lenient_call(x) is None,
        forall|i: int|
            0 <= i < fields.len() && (#[trigger] fields[i]).0 == "arguments"@ && (forall|j: int|
                0 <= j < i ==> (#[trigger] fields[j]).0 != "arguments"@) && !(json::json_parse(
                "["@ + fields[i].1 + "]"@,
            ) matches Ok(Json::Array(items)) && items.len() == 1) ==> lenient_call(x) is None,
{
    if forall|i: int| 0 <= i < fields.len() ==> (#[trigger] fields[i]).0 != "name"@ {
        lemma_field_missing(fields, "name"@);
    }
    assert forall|i: int|
        0 <= i < fields.len() && (#[trigger] fields[i]).0 == "name"@ && (forall|j: int|
            0 <= j < i ==> (#[trigger] fields[j]).0 != "name"@) && !(json::json_parse(
            "["@ + fields[i].1 + "]"@,
        ) matches Ok(Json::Array(items)) && items.len() == 1 && items[0] is Text) implies
        lenient_call(x) is None by {
        lemma_first_field(fields, "name"@, i);
    }
    assert forall|i: int|
        0 <= i < fields.len() && (#[trigger] fields[i]).0 == "arguments"@ && (forall|j: int|
            0 <= j < i ==> (#[trigger] fields[j]).0 != "arguments"@) && !(json::json_parse(
            "["@ + fields[i].1 + "]"@,
        ) matches Ok(Json::Array(items)) && items.len() == 1) implies lenient_call(x) is None by {
        lemma_first_field(fields, "arguments"@, i);
    }
}

proof fn lemma_first_field(fields: Seq<(Seq<char>, Seq<char>)>, key: Seq<char>, i: int)
    requires
        0 <= i < fields.len(),
        fields[i].0 == key,
        forall|j: int| 0 <= j < i ==> (#[trigger] fields[j]).0 != key,
    ensures
        field_text(fields, key) == Some(fields[i].1),
    decreases fields.len(),
{
    if i > 0 {
        let rest = fields.drop_first();
        assert(fields[0].0 != key);
        assert forall|j: int| 0 <= j < i - 1 implies (#[trigger] rest[j]).0 != key by {
            assert(rest[j] == fields[j + 1]);
        }
        lemma_first_field(rest, key, i - 1);
    }
}

/// A key is counted as often as it is read among the keys of an object, however it is
/// written.
pub proof fn law_each_key_counts(written: Seq<Seq<char>>, k: Seq<char>, key: Seq<char>)
    ensures
        key_count(Seq::empty(), key) == 0,
        key_count(written.push(k), key) == key_count(written, key) + (if json::json_parse(k) == Ok::<
            Json,
            Seq<char>,
        >(Json::Text(key)) {
            1int
        } else {
            0
        }),
{
    assert(written.push(k).drop_last() =~= written);
}

} // verus!
