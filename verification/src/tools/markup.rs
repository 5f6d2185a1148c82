//! How a turn of the assistant is written down with its tool calls, and that it reads
//! back as what it was.

use vstd::prelude::*;
use vstd::string::*;

use crate::json;
use crate::json::Json;
use crate::text;
use crate::tools::parser;

verus! {

/// A tool call as JSON.
pub open spec fn call_json(call: (Seq<char>, Json)) -> Json {
    Json::Object(
        json::pairs_object(seq![("name"@, Json::Text(call.0)), ("arguments"@, call.1)]),
    )
}

/// A tool call in its tags.
pub open spec fn call_block(call: (Seq<char>, Json)) -> Seq<char> {
    "<tool_call>\n"@ + json::json_text_or(call_json(call), "{}"@) + "\n</tool_call>\n"@
}

/// Tool calls, one after the other.
pub open spec fn call_blocks(calls: Seq<(Seq<char>, Json)>) -> Seq<char>
    decreases calls.len(),
{
    if calls.len() == 0 {
        Seq::empty()
    } else {
        call_blocks(calls.drop_last()) + call_block(calls.last())
    }
}

/// The turn of the assistant with its tool calls written out.
pub open spec fn assistant_text(prose: Seq<char>, calls: Seq<(Seq<char>, Json)>) -> Seq<char> {
    text::trimmed(
        (if prose.len() > 0 {
            prose + "\n"@
        } else {
            Seq::empty()
        }) + call_blocks(calls),
    )
}

// ---------------------------------------------------------------------------
// Laws
// ---------------------------------------------------------------------------

/// The JSON of a tool call can be written, in braces and without the closing tag.
pub open spec fn written(call: (Seq<char>, Json)) -> bool {
    json::json_text(call_json(call)) matches Ok(t) && !text::has_text(t, parser::CLOSE@)
        && json::braced(t)
}

/// A tool call that can be told from the text round it once it is written: it is readable
/// JSON, and none of its strings holds the closing tag.
pub open spec fn tellable(call: (Seq<char>, Json)) -> bool {
    json::readable(call_json(call)) && json::free_of(call_json(call), parser::CLOSE@, 100)
}

/// A turn that reads back as itself: trimmed prose without an opening tag, and tool calls
/// that can be written down.
pub open spec fn rereadable(prose: Seq<char>, calls: Seq<(Seq<char>, Json)>) -> bool {
    &&& calls.len() > 0
    &&& forall|k: int|
        0 <= k < calls.len() ==> written(#[trigger] calls[k]) && json::readable(
            call_json(calls[k]),
        )
    &&& text::trimmed(prose) == prose
    &&& !text::has_text(prose, parser::OPEN@)
}

/// A tool call survives being written down: its text reads back as the call.
pub open spec fn reads_back(call: (Seq<char>, Json)) -> bool {
    json::json_text(call_json(call)) matches Ok(t) && !text::has_text(t, parser::CLOSE@)
        && parser::first_call(text::trimmed("\n"@ + t + "\n"@)) == seq![call]
}

/// What the agent stores of a turn reads back as that turn: the same tool calls in the
/// same order, and the same prose.
pub proof fn law_stored_turn_reads_back(prose: Seq<char>, calls: Seq<(Seq<char>, Json)>)
    requires
        calls.len() > 0,
        forall|k: int| 0 <= k < calls.len() ==> reads_back(#[trigger] calls[k]),
        text::trimmed(prose) == prose,
        !text::has_text(prose, parser::OPEN@),
    ensures
        parser::parsed_calls(assistant_text(prose, calls)) == calls,
        parser::parsed_prose(assistant_text(prose, calls)) == prose,
{
    lemma_turn_is_stretch(prose, calls);
    let lead = lead_of(prose);
    let stored = stretch(lead, calls);
    reveal_strlit("\n");
    lemma_stretch(lead, calls);
    lemma_open_found(lead, calls);
    text::lemma_has_text(stored, parser::OPEN@);
    lemma_trimmed_lines(prose, calls.len());
    assert(lead + lines((calls.len() - 1) as nat) =~= if prose.len() > 0 {
        prose + lines(calls.len())
    } else {
        lines((calls.len() - 1) as nat)
    });
    if prose.len() == 0 {
        lemma_trimmed_lines(prose, (calls.len() - 1) as nat);
        assert(prose + lines((calls.len() - 1) as nat) =~= lines((calls.len() - 1) as nat));
    }
}

/// The text of a tool call does not hold the closing tag.
spec fn closes(call: (Seq<char>, Json)) -> bool {
    json::json_text(call_json(call)) matches Ok(t) && !text::has_text(t, parser::CLOSE@)
}

/// So many line breaks.
spec fn lines(n: nat) -> Seq<char> {
    Seq::new(n, |i: int| '\n')
}

/// Tool calls, one after the other, from the first on.
spec fn front_blocks(calls: Seq<(Seq<char>, Json)>) -> Seq<char>
    decreases calls.len(),
{
    if calls.len() == 0 {
        Seq::empty()
    } else {
        call_block(calls.first()) + front_blocks(calls.drop_first())
    }
}

/// Tool calls behind a text, without the last line break.
spec fn stretch(pre: Seq<char>, calls: Seq<(Seq<char>, Json)>) -> Seq<char> {
    (pre + front_blocks(calls)).drop_last()
}

proof fn lemma_blocks_front(calls: Seq<(Seq<char>, Json)>)
    ensures
        call_blocks(calls) == front_blocks(calls),
    decreases calls.len(),
{
    if calls.len() == 1 {
        assert(calls.drop_last() =~= Seq::<(Seq<char>, Json)>::empty());
        assert(calls.drop_first() =~= Seq::<(Seq<char>, Json)>::empty());
        reveal_with_fuel(call_blocks, 2);
        reveal_with_fuel(front_blocks, 2);
        assert(call_blocks(calls) =~= call_block(calls.first()));
        assert(front_blocks(calls) =~= call_block(calls.first()));
    } else if calls.len() > 1 {
        let a = calls.drop_last();
        let b = calls.drop_first();
        lemma_blocks_front(a);
        lemma_blocks_front(b);
        lemma_blocks_front(a.drop_first());
        assert(a.drop_first() =~= b.drop_last());
        assert(call_blocks(calls) =~= call_block(calls.first()) + (front_blocks(a.drop_first())
            + call_block(calls.last())));
    }
}

/// How the tags are spelled.
proof fn lemma_spelling()
    ensures
        "<tool_call>\n"@ == parser::OPEN@ + "\n"@,
        "\n</tool_call>\n"@ == "\n"@ + parser::CLOSE@ + "\n"@,
        parser::OPEN@.len() == 11,
        parser::CLOSE@.len() == 12,
        forall|k: int| 0 <= k < 11 ==> #[trigger] parser::OPEN@[k] != '\n',
        forall|k: int| 0 <= k < 12 ==> #[trigger] parser::CLOSE@[k] != '\n',
        parser::OPEN@[0] == '<',
        parser::CLOSE@[11] == '>',
        "\n"@ == seq!['\n'],
{
    reveal_strlit("<tool_call>\n");
    reveal_strlit("\n</tool_call>\n");
    reveal_strlit("<tool_call>");
    reveal_strlit("</tool_call>");
    reveal_strlit("\n");
    assert("<tool_call>\n"@ =~= parser::OPEN@ + "\n"@);
    assert("\n</tool_call>\n"@ =~= "\n"@ + parser::CLOSE@ + "\n"@);
    assert("\n"@ =~= seq!['\n']);
}

/// A block ends in its closing tag and a line break.
proof fn lemma_ends_in_tag(calls: Seq<(Seq<char>, Json)>)
    requires
        calls.len() > 0,
    ensures
        front_blocks(calls).len() >= 2,
        front_blocks(calls).last() == '\n',
        front_blocks(calls)[front_blocks(calls).len() - 2] == '>',
    decreases calls.len(),
{
    lemma_spelling();
    let block = call_block(calls.first());
    let tail = "\n</tool_call>\n"@;
    assert(block[block.len() - 1] == tail[tail.len() - 1]);
    assert(block[block.len() - 2] == tail[tail.len() - 2]);
    if calls.len() > 1 {
        lemma_ends_in_tag(calls.drop_first());
    } else {
        assert(calls.drop_first() =~= Seq::<(Seq<char>, Json)>::empty());
        reveal_with_fuel(front_blocks, 2);
        assert(front_blocks(calls) =~= block);
    }
}

/// A text without line breaks that starts where a line does is found there, unless it
/// is found before.
proof fn lemma_found_at_line(a: Seq<char>, x: Seq<char>, needle: Seq<char>)
    requires
        needle.len() > 0,
        forall|k: int| 0 <= k < needle.len() ==> #[trigger] needle[k] != '\n',
        !text::has_text(a, needle),
        a.len() > 0 ==> a.last() == '\n',
        text::occurs_at(x, needle, 0),
    ensures
        text::first_at(a + x, needle) == Some(a.len() as int),
{
    let hay = a + x;
    let n = needle.len();
    text::lemma_find_from(hay, needle, 0);
    assert(hay.subrange(a.len() as int, a.len() as int + n) =~= x.subrange(0, n as int));
    assert(text::occurs_at(hay, needle, a.len() as int));
    let i = text::first_at(hay, needle)->0;
    if i < a.len() {
        if i + n <= a.len() {
            assert(a.subrange(i, i + n) =~= hay.subrange(i, i + n));
            assert(text::occurs_at(a, needle, i));
        } else {
            let k = a.len() - 1 - i;
            assert(hay.subrange(i, i + n)[k] == hay[a.len() - 1]);
            assert(needle[k] != '\n');
        }
    }
}

/// The first tool call of a stretch stands behind the text before it.
proof fn lemma_open_found(pre: Seq<char>, calls: Seq<(Seq<char>, Json)>)
    requires
        calls.len() > 0,
        !text::has_text(pre, parser::OPEN@),
        pre.len() > 0 ==> pre.last() == '\n',
    ensures
        text::first_at(stretch(pre, calls), parser::OPEN@) == Some(pre.len() as int),
{
    lemma_spelling();
    lemma_ends_in_tag(calls);
    let x = front_blocks(calls).drop_last();
    assert(stretch(pre, calls) =~= pre + x);
    assert(call_block(calls.first()).len() >= 25);
    assert(x.subrange(0, 11) =~= parser::OPEN@);
    lemma_found_at_line(pre, x, parser::OPEN@);
}

/// What follows the closing tag of the first call of a stretch.
spec fn remainder(calls: Seq<(Seq<char>, Json)>) -> Seq<char> {
    if calls.len() > 1 {
        stretch("\n"@, calls.drop_first())
    } else {
        Seq::empty()
    }
}

/// A stretch is the text before its calls, the first call in its tags, and the rest.
proof fn lemma_stretch_parts(pre: Seq<char>, calls: Seq<(Seq<char>, Json)>)
    requires
        calls.len() > 0,
        closes(calls[0]),
    ensures
        ({
            let body = "\n"@ + json::json_text(call_json(calls[0]))->Ok_0 + "\n"@;
            stretch(pre, calls) == pre + parser::OPEN@ + body + parser::CLOSE@ + remainder(calls)
        }),
{
    lemma_spelling();
    lemma_ends_in_tag(calls);
    let others = calls.drop_first();
    let t = json::json_text(call_json(calls[0]))->Ok_0;
    let body = "\n"@ + t + "\n"@;
    assert(call_block(calls.first()) =~= parser::OPEN@ + body + parser::CLOSE@ + "\n"@);
    if others.len() > 0 {
        lemma_ends_in_tag(others);
    } else {
        assert(front_blocks(others) =~= Seq::empty());
    }
    assert(stretch(pre, calls) =~= pre + parser::OPEN@ + body + parser::CLOSE@ + remainder(calls));
}

/// A closing tag that is not in a text is not in the lines round it.
proof fn lemma_body_unclosed(t: Seq<char>)
    requires
        !text::has_text(t, parser::CLOSE@),
    ensures
        !text::has_text("\n"@ + t + "\n"@, parser::CLOSE@),
{
    lemma_spelling();
    let body = "\n"@ + t + "\n"@;
    if text::has_text(body, parser::CLOSE@) {
        let k = choose|k: int| text::occurs_at(body, parser::CLOSE@, k);
        let sub = body.subrange(k, k + 12);
        assert(sub[0] == body[k]);
        assert(sub[11] == body[k + 11]);
        assert(parser::CLOSE@[0] != '\n');
        assert(t.subrange(k - 1, k + 11) =~= sub);
        assert(text::occurs_at(t, parser::CLOSE@, k - 1));
    }
}

/// A stretch is cut into the text before its calls, the first call, and the segments of
/// the rest.
proof fn lemma_stretch_cut(pre: Seq<char>, calls: Seq<(Seq<char>, Json)>)
    requires
        calls.len() > 0,
        closes(calls[0]),
        !text::has_text(pre, parser::OPEN@),
        pre.len() > 0 ==> pre.last() == '\n',
    ensures
        ({
            let body = "\n"@ + json::json_text(call_json(calls[0]))->Ok_0 + "\n"@;
            let raw = parser::OPEN@ + body + parser::CLOSE@;
            parser::canonical(stretch(pre, calls)) == seq![
                parser::prose_segment(pre),
                parser::SegmentView { raw, body: Some(body) },
            ] + parser::canonical(remainder(calls))
        }),
{
    lemma_spelling();
    lemma_open_found(pre, calls);
    lemma_stretch_parts(pre, calls);
    let t = json::json_text(call_json(calls[0]))->Ok_0;
    let whole = stretch(pre, calls);
    let after = remainder(calls);
    let body = "\n"@ + t + "\n"@;
    let raw = parser::OPEN@ + body + parser::CLOSE@;
    let i = pre.len() as int;
    let start = i + 11;
    let j = start + body.len();
    let end = j + 12;
    let x = parser::CLOSE@ + after;
    assert(whole.skip(start) =~= body + x);
    lemma_body_unclosed(t);
    assert(x.subrange(0, 12) =~= parser::CLOSE@);
    lemma_found_at_line(body, x, parser::CLOSE@);
    text::lemma_find_from_skip(whole, parser::CLOSE@, start, 0);
    assert(text::find_from(whole, parser::CLOSE@, start) == Some(j as int));
    assert(whole.skip(end) =~= after);
    assert(whole.take(i) =~= pre);
    assert(whole.subrange(start, j as int) =~= body);
    assert(whole.subrange(i, end as int) =~= raw);
}

/// What a stretch is read as: its tool calls, and the text before them with the line
/// breaks between them.
proof fn lemma_stretch(pre: Seq<char>, calls: Seq<(Seq<char>, Json)>)
    requires
        calls.len() > 0,
        forall|k: int| 0 <= k < calls.len() ==> reads_back(#[trigger] calls[k]),
        !text::has_text(pre, parser::OPEN@),
        pre.len() > 0 ==> pre.last() == '\n',
    ensures
        ({
            let segments = parser::canonical(stretch(pre, calls));
            let found = parser::canonical_calls(segments);
            &&& parser::all_calls(found) == calls
            &&& parser::kept_text(segments, found) == pre + lines((calls.len() - 1) as nat)
        }),
    decreases calls.len(),
{
    let call = calls[0];
    let others = calls.drop_first();
    assert(reads_back(call));
    lemma_stretch_cut(pre, calls);
    let body = "\n"@ + json::json_text(call_json(call))->Ok_0 + "\n"@;
    let block = parser::SegmentView {
        raw: parser::OPEN@ + body + parser::CLOSE@,
        body: Some(body),
    };
    let head = seq![parser::prose_segment(pre), block];
    let tail = parser::canonical(remainder(calls));
    let found = parser::canonical_calls(tail);
    lemma_head(pre, block, call);
    assert(parser::canonical_calls(head + tail) =~= parser::canonical_calls(head) + found);
    parser::lemma_all_calls_concat(parser::canonical_calls(head), found);
    parser::lemma_kept_text_concat(head, tail, parser::canonical_calls(head), found);
    if others.len() > 0 {
        assert forall|k: int| 0 <= k < others.len() implies reads_back(#[trigger] others[k]) by {
            assert(others[k] == calls[k + 1]);
        }
        lemma_spelling();
        lemma_stretch("\n"@, others);
        assert(seq![call] + others =~= calls);
        assert(pre + ("\n"@ + lines((others.len() - 1) as nat)) =~= pre + lines(
            (calls.len() - 1) as nat,
        ));
    } else {
        lemma_empty_tail();
        assert(seq![call] + Seq::<(Seq<char>, Json)>::empty() =~= calls);
        assert(pre + Seq::<char>::empty() =~= pre + lines(0));
    }
}

/// What a text and a block behind it are read as.
proof fn lemma_head(pre: Seq<char>, block: parser::SegmentView, call: (Seq<char>, Json))
    requires
        block.body matches Some(b) && parser::first_call(text::trimmed(b)) == seq![call],
    ensures
        ({
            let head = seq![parser::prose_segment(pre), block];
            let found = parser::canonical_calls(head);
            &&& parser::all_calls(found) == seq![call]
            &&& parser::kept_text(head, found) == pre
        }),
{
    let none = Seq::<(Seq<char>, Json)>::empty();
    let head = seq![parser::prose_segment(pre), block];
    let found = parser::canonical_calls(head);
    assert(found =~= seq![none, seq![call]]);
    assert(found.drop_last() =~= seq![none]);
    assert(found.drop_last().drop_last() =~= Seq::<Seq<(Seq<char>, Json)>>::empty());
    assert(head.drop_last() =~= seq![parser::prose_segment(pre)]);
    assert(head.drop_last().drop_last() =~= Seq::<parser::SegmentView>::empty());
    reveal_with_fuel(parser::all_calls, 3);
    reveal_with_fuel(parser::kept_text, 3);
    assert(parser::all_calls(found) =~= seq![call]);
    assert(parser::kept_text(head, found) =~= pre);
}

/// Nothing is read from an empty text.
proof fn lemma_empty_tail()
    ensures
        ({
            let tail = parser::canonical(Seq::empty());
            let found = parser::canonical_calls(tail);
            &&& parser::all_calls(found) == Seq::<(Seq<char>, Json)>::empty()
            &&& parser::kept_text(tail, found) == Seq::<char>::empty()
        }),
{
    lemma_spelling();
    let empty = Seq::<char>::empty();
    let none = Seq::<(Seq<char>, Json)>::empty();
    let tail = parser::canonical(empty);
    let found = parser::canonical_calls(tail);
    assert(tail =~= seq![parser::prose_segment(empty)]);
    assert(found =~= seq![none]);
    assert(tail.drop_last() =~= Seq::<parser::SegmentView>::empty());
    assert(found.drop_last() =~= Seq::<Seq<(Seq<char>, Json)>>::empty());
    reveal_with_fuel(parser::all_calls, 2);
    reveal_with_fuel(parser::kept_text, 2);
    assert(parser::all_calls(found) =~= none);
    assert(parser::kept_text(tail, found) =~= empty);
}

/// A trimmed text neither starts nor ends in white space.
proof fn lemma_trimmed_ends(s: Seq<char>)
    requires
        text::trimmed(s) == s,
    ensures
        s.len() > 0 ==> !text::is_white(s.first()) && !text::is_white(s.last()),
{
    if s.len() > 0 {
        if text::is_white(s.first()) {
            lemma_trim_shortens(s.drop_first());
        } else if text::is_white(s.last()) {
            assert(text::trim_start(s) == s);
            lemma_trim_shortens(s.drop_last());
        }
    }
}

/// Trimming makes no text longer.
proof fn lemma_trim_shortens(s: Seq<char>)
    ensures
        text::trim_start(s).len() <= s.len(),
        text::trim_end(s).len() <= s.len(),
        text::trimmed(s).len() <= s.len(),
    decreases s.len(),
{
    if s.len() > 0 {
        lemma_trim_shortens(s.drop_first());
        lemma_trim_shortens(s.drop_last());
        if !text::is_white(s.first()) {
            assert(text::trim_start(s) == s);
        }
    }
}

/// Line breaks behind a trimmed text are trimmed away.
proof fn lemma_trimmed_lines(s: Seq<char>, n: nat)
    requires
        text::trimmed(s) == s,
    ensures
        text::trimmed(s + lines(n)) == s,
    decreases n,
{
    lemma_trimmed_ends(s);
    let all = s + lines(n);
    if n == 0 {
        assert(all =~= s);
    } else if s.len() == 0 {
        assert(all.drop_first() =~= s + lines((n - 1) as nat));
        lemma_trimmed_lines(s, (n - 1) as nat);
    } else {
        assert(text::trim_start(all) == all);
        let shorter = s + lines((n - 1) as nat);
        assert(all.drop_last() =~= shorter);
        lemma_trimmed_lines(s, (n - 1) as nat);
        assert(text::trim_start(shorter) == shorter);
    }
}


/// The prose of a turn as it stands before its tool calls.
spec fn lead_of(prose: Seq<char>) -> Seq<char> {
    if prose.len() > 0 {
        prose + "\n"@
    } else {
        Seq::empty()
    }
}

/// What is stored of a turn is its prose and its tool calls; only the last line break is
/// trimmed.
proof fn lemma_turn_is_stretch(prose: Seq<char>, calls: Seq<(Seq<char>, Json)>)
    requires
        calls.len() > 0,
        text::trimmed(prose) == prose,
        !text::has_text(prose, parser::OPEN@),
    ensures
        assistant_text(prose, calls) == stretch(lead_of(prose), calls),
        !text::has_text(lead_of(prose), parser::OPEN@),
        lead_of(prose).len() > 0 ==> lead_of(prose).last() == '\n',
{
    reveal_strlit("\n");
    let lead = lead_of(prose);
    let whole = lead + call_blocks(calls);
    let stored = stretch(lead, calls);
    lemma_blocks_front(calls);
    lemma_spelling();
    assert(whole == lead + front_blocks(calls));
    let block = call_block(calls.first());
    assert(front_blocks(calls) == block + front_blocks(calls.drop_first()));
    lemma_ends_in_tag(calls);
    // Only the line break at the end is trimmed.
    lemma_trimmed_ends(prose);
    assert(!text::is_white(whole.first())) by {
        if prose.len() > 0 {
            assert(whole.first() == prose.first());
        } else {
            assert(whole.first() == block[0]);
            assert(block[0] == "<tool_call>\n"@[0]);
        }
    }
    assert(text::trim_start(whole) == whole);
    assert(whole.last() == front_blocks(calls).last());
    assert(whole.drop_last().last() == front_blocks(calls)[front_blocks(calls).len() - 2]);
    assert(text::trim_end(whole) == text::trim_end(whole.drop_last()));
    assert(text::trim_end(whole.drop_last()) == whole.drop_last());
    assert(assistant_text(prose, calls) == stored);
    assert(!text::has_text(lead, parser::OPEN@)) by {
        if text::has_text(lead, parser::OPEN@) {
            let i = choose|i: int| text::occurs_at(lead, parser::OPEN@, i);
            let n = parser::OPEN@.len();
            if i + n <= prose.len() {
                assert(prose.subrange(i, i + n) =~= lead.subrange(i, i + n));
                assert(text::occurs_at(prose, parser::OPEN@, i));
            } else {
                assert(lead.subrange(i, i + n)[n - 1] == lead[i + n - 1]);
            }
        }
    }
}

/// A turn that was written down holds an opening tag.
pub proof fn lemma_turn_has_tag(prose: Seq<char>, calls: Seq<(Seq<char>, Json)>)
    requires
        rereadable(prose, calls),
    ensures
        text::has_text(assistant_text(prose, calls), parser::OPEN@),
{
    lemma_turn_is_stretch(prose, calls);
    lemma_open_found(lead_of(prose), calls);
    text::lemma_has_text(assistant_text(prose, calls), parser::OPEN@);
}

/// The body of every tool call is found among the segments of a stretch.
proof fn lemma_bodies_found(pre: Seq<char>, calls: Seq<(Seq<char>, Json)>, k: int)
    requires
        0 <= k < calls.len(),
        forall|i: int| 0 <= i < calls.len() ==> closes(#[trigger] calls[i]),
        !text::has_text(pre, parser::OPEN@),
        pre.len() > 0 ==> pre.last() == '\n',
    ensures
        exists|i: int|
            0 <= i < parser::canonical(stretch(pre, calls)).len() && (
            #[trigger] parser::canonical(stretch(pre, calls))[i]).body == Some(
                "\n"@ + json::json_text(call_json(calls[k]))->Ok_0 + "\n"@,
            ),
    decreases calls.len(),
{
    assert(closes(calls[0]));
    lemma_stretch_cut(pre, calls);
    let segments = parser::canonical(stretch(pre, calls));
    let rest = parser::canonical(remainder(calls));
    if k == 0 {
        assert(segments[1].body == Some(
            "\n"@ + json::json_text(call_json(calls[0]))->Ok_0 + "\n"@,
        ));
    } else {
        let others = calls.drop_first();
        lemma_spelling();
        assert forall|i: int| 0 <= i < others.len() implies closes(#[trigger] others[i]) by {
            assert(others[i] == calls[i + 1]);
        }
        lemma_bodies_found("\n"@, others, k - 1);
        assert(others[k - 1] == calls[k]);
        let wanted = Some("\n"@ + json::json_text(call_json(calls[k]))->Ok_0 + "\n"@);
        let i = choose|i: int| 0 <= i < rest.len() && (#[trigger] rest[i]).body == wanted;
        assert(segments[i + 2] == rest[i]);
    }
}

/// The body of a block, trimmed and stripped, is the text between its line breaks.
proof fn lemma_bare(t: Seq<char>)
    requires
        json::braced(t),
    ensures
        text::trimmed("\n"@ + t + "\n"@) == t,
        parser::bare_body(t) == t,
{
    lemma_spelling();
    let whole = "\n"@ + t + "\n"@;
    assert(whole.drop_first() =~= t + "\n"@);
    assert((t + "\n"@).first() == t.first());
    assert((t + "\n"@).drop_last() =~= t);
    assert(text::trim_start(t + "\n"@) == t + "\n"@);
    assert(text::trim_start(whole) == t + "\n"@);
    assert(text::trim_end(t) == t);
    assert(text::trim_end(t + "\n"@) == text::trim_end(t));
    assert(text::trim_start(t) == t);
    reveal_strlit("```json");
    reveal_strlit("```");
    let a = parser::FENCE_JSON@;
    let b = parser::FENCE@;
    if text::occurs_at(t, a, 0) {
        assert(t.subrange(0, a.len() as int)[0] == t[0]);
    }
    if text::occurs_at(t, b, 0) {
        assert(t.subrange(0, b.len() as int)[0] == t[0]);
    }
    if text::occurs_at(t, b, t.len() - b.len()) {
        assert(t.subrange(t.len() - b.len(), t.len() as int)[b.len() - 1] == t[t.len() - 1]);
    }
}

/// The JSON of a tool call is the JSON of that call.
proof fn lemma_call_json(call: (Seq<char>, Json))
    ensures
        parser::call_of(call_json(call)) == Some(call),
        call_json(call) matches Json::Object(fields) && fields.dom() == set![
            "name"@,
            "arguments"@,
        ] && fields["name"@] == Json::Text(call.0) && fields["arguments"@] == call.1,
{
    reveal_strlit("name");
    reveal_strlit("arguments");
    assert("name"@.len() != "arguments"@.len());
    let pairs = seq![("name"@, Json::Text(call.0)), ("arguments"@, call.1)];
    assert(pairs.drop_last() =~= seq![("name"@, Json::Text(call.0))]);
    assert(pairs.drop_last().drop_last() =~= Seq::<(Seq<char>, Json)>::empty());
    reveal_with_fuel(json::pairs_object, 3);
    assert(json::pairs_object(pairs).dom() =~= set!["name"@, "arguments"@]);
}

/// A turn that was written down reads back, where the bodies in it are read as what they
/// were written as.
pub proof fn lemma_turn_reread(prose: Seq<char>, calls: Seq<(Seq<char>, Json)>)
    requires
        rereadable(prose, calls),
        parser::all_faithful(parser::canonical(assistant_text(prose, calls))),
    ensures
        parser::parsed_calls(assistant_text(prose, calls)) == calls,
        parser::parsed_prose(assistant_text(prose, calls)) == prose,
{
    lemma_turn_is_stretch(prose, calls);
    let segments = parser::canonical(assistant_text(prose, calls));
    assert forall|i: int| 0 <= i < calls.len() implies closes(#[trigger] calls[i]) by {
        assert(written(calls[i]));
    }
    assert forall|k: int| 0 <= k < calls.len() implies reads_back(#[trigger] calls[k]) by {
        let call = calls[k];
        assert(written(call));
        lemma_bodies_found(lead_of(prose), calls, k);
        let t = json::json_text(call_json(call))->Ok_0;
        let body = "\n"@ + t + "\n"@;
        let i = choose|i: int|
            0 <= i < segments.len() && (#[trigger] segments[i]).body == Some(body);
        assert(parser::faithful(text::trimmed(segments[i].body->0)));
        lemma_bare(t);
        lemma_call_json(call);
        assert(json::json_text(call_json(call)) == Ok::<Seq<char>, Seq<char>>(t));
        assert(json::json_parse(t) == Ok::<Json, Seq<char>>(call_json(call)));
        assert(parser::calls_of_body(t) == seq![call]);
        assert(seq![call].take(1) =~= seq![call]);
    }
    law_stored_turn_reads_back(prose, calls);
}

/// What can be told from the text round it is written in braces and without the closing
/// tag.
pub proof fn lemma_tellable(call: (Seq<char>, Json))
    requires
        tellable(call),
        json::well_written(json::json_text(call_json(call)), call_json(call)),
    ensures
        written(call),
{
    reveal_strlit("</tool_call>");
    let tag = parser::CLOSE@;
    assert(!tag.contains('"')) by {
        assert(forall|i: int| 0 <= i < tag.len() ==> tag[i] != '"');
    }
    assert(!tag.contains('\\')) by {
        assert(forall|i: int| 0 <= i < tag.len() ==> tag[i] != '\\');
    }
    assert(json::is_tag(tag));
}

/// A tool call whose arguments are strings survives being written down, where neither its
/// name nor an argument nor the name of one holds the closing tag, and no name of an
/// argument is reserved.
pub proof fn law_string_calls_are_tellable(call: (Seq<char>, Json), arguments: Map<Seq<char>, Json>)
    requires
        call.1 == Json::Object(arguments),
        !text::has_text(call.0, parser::CLOSE@),
        forall|k: Seq<char>| #[trigger]
            arguments.contains_key(k) ==> !json::is_reserved(k) && !text::has_text(
                k,
                parser::CLOSE@,
            ) && (arguments[k] matches Json::Text(s) && !text::has_text(s, parser::CLOSE@)),
    ensures
        tellable(call),
{
    lemma_call_json(call);
    reveal_strlit("name");
    reveal_strlit("arguments");
    reveal_strlit("</tool_call>");
    reveal_strlit("$serde_json::private::RawValue");
    reveal_strlit("$serde_json::private::Number");
    assert("name"@[0] != '$' && "arguments"@[0] != '$');
    let tag = parser::CLOSE@;
    reveal_with_fuel(json::plain, 4);
    reveal_with_fuel(json::free_of, 4);
    assert(!text::has_text("name"@, tag));
    assert(!text::has_text("arguments"@, tag));
    assert(json::plain(call.1, 99));
    assert(json::free_of(call.1, tag, 99));
}

/// A call is written as an object with its name and its arguments, and nothing else.
pub proof fn law_call_is_written_as_it_is(call: (Seq<char>, Json))
    ensures
        call_json(call) matches Json::Object(o) && o.dom() == set!["name"@, "arguments"@]
            && o["name"@] == Json::Text(call.0) && o["arguments"@] == call.1,
{
    reveal_strlit("name");
    reveal_strlit("arguments");
    assert("name"@.len() != "arguments"@.len());
    let a = seq![("name"@, Json::Text(call.0)), ("arguments"@, call.1)];
    json::law_object_has_its_fields(a);
    assert(a[0].0 == "name"@ && a[1].0 == "arguments"@);
    assert(json::pairs_object(a).dom() =~= set!["name"@, "arguments"@]);
}

/// Every call that the assistant made is written down, whatever it asks for: the first one
/// behind the prose, on lines of its own and between its tags, and each further one in the
/// same way behind the one before.
pub proof fn law_each_call_is_written_down(
    prose: Seq<char>,
    calls: Seq<(Seq<char>, Json)>,
    call: (Seq<char>, Json),
)
    requires
        prose.len() > 0 ==> !text::is_white(prose[0]),
    ensures
        ({
            let block = "<tool_call>\n"@ + json::json_text_or(call_json(call), "{}"@)
                + "\n</tool_call>"@;
            assistant_text(prose, calls.push(call)) == (if calls.len() > 0 {
                assistant_text(prose, calls) + "\n"@ + block
            } else if prose.len() > 0 {
                prose + "\n"@ + block
            } else {
                block
            })
        }),
{
    reveal_strlit("\n");
    reveal_strlit("<tool_call>\n");
    reveal_strlit("\n</tool_call>\n");
    reveal_strlit("\n</tool_call>");
    let lead = if prose.len() > 0 {
        prose + "\n"@
    } else {
        Seq::empty()
    };
    let body = json::json_text_or(call_json(call), "{}"@);
    let block = "<tool_call>\n"@ + body + "\n</tool_call>"@;
    assert("\n</tool_call>\n"@ =~= "\n</tool_call>"@ + "\n"@);
    assert(call_block(call) =~= block + "\n"@);
    let more = calls.push(call);
    assert(more.drop_last() =~= calls);
    assert(call_blocks(more) == call_blocks(calls) + call_block(call));
    lemma_blocks_trimmed(lead, calls, call, block);
    if calls.len() > 0 {
        let front = calls.drop_last();
        let last = calls.last();
        let other = "<tool_call>\n"@ + json::json_text_or(call_json(last), "{}"@)
            + "\n</tool_call>"@;
        assert(front.push(last) =~= calls);
        assert(call_block(last) =~= other + "\n"@);
        lemma_blocks_trimmed(lead, front, last, other);
        assert(lead + call_blocks(calls) + block =~= (lead + call_blocks(front) + other) + "\n"@
            + block);
    } else {
        assert(call_blocks(calls) =~= Seq::<char>::empty());
        assert(lead + call_blocks(calls) + block =~= lead + block);
        if prose.len() == 0 {
            assert(lead + block =~= block);
        }
    }
}

proof fn lemma_blocks_trimmed(
    lead: Seq<char>,
    calls: Seq<(Seq<char>, Json)>,
    call: (Seq<char>, Json),
    block: Seq<char>,
)
    requires
        lead.len() > 0 ==> !text::is_white(lead[0]),
        call_block(call) == block + "\n"@,
        block.len() > 0,
        block.last() == '>',
        block[0] == '<',
    ensures
        text::trimmed(lead + call_blocks(calls.push(call))) == lead + call_blocks(calls) + block,
{
    reveal_strlit("\n");
    reveal_strlit("<tool_call>\n");
    let e = Seq::<char>::empty();
    let middle = lead + call_blocks(calls) + block;
    let whole = lead + call_blocks(calls.push(call));
    assert(calls.push(call).drop_last() =~= calls);
    assert(whole =~= e + middle + "\n"@);
    assert(text::blank("\n"@));
    assert(middle.last() == '>');
    assert(!text::is_white(middle.first())) by {
        if lead.len() == 0 {
            if calls.len() > 0 {
                lemma_blocks_open(calls);
                assert(middle[0] == call_blocks(calls)[0]);
            } else {
                assert(call_blocks(calls) =~= e);
                assert(middle[0] == block[0]);
            }
        }
    }
    text::law_trimmed(e, middle, "\n"@);
}

proof fn lemma_blocks_open(calls: Seq<(Seq<char>, Json)>)
    requires
        calls.len() > 0,
    ensures
        call_blocks(calls).len() > 0,
        call_blocks(calls)[0] == '<',
    decreases calls.len(),
{
    reveal_strlit("<tool_call>\n");
    if calls.len() > 1 {
        lemma_blocks_open(calls.drop_last());
    } else {
        assert(call_blocks(calls.drop_last()) =~= Seq::<char>::empty());
        assert(call_blocks(calls) =~= call_block(calls.last()));
    }
}

} // verus!
