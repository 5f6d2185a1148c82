//! Sessions: creating, listing and inspecting them.

use vstd::prelude::*;
use vstd::string::*;

use crate::error::{AppError, ErrorView};
use crate::model::engine;
use crate::model::engine::ChatTurn;
use crate::text;
use crate::text::{chars_of, find_text, trim};
use crate::types::{CreateSessionRequest, DebugContext, DebugTurn, ListSessionsQuery, Role};

verus! {

/// The title of a new session, trimmed. A blank one is refused.
pub fn create(req: &CreateSessionRequest) -> (r: Result<String, AppError>)
    ensures
        match r {
            Ok(title) => title@ == text::trimmed(req.title@) && title@.len() > 0,
            Err(e) => text::trimmed(req.title@).len() == 0 && e@ == ErrorView::BadRequest(
                "title is required"@,
            ),
        },
{
    let title = trim(req.title.as_str());
    if title.as_str().is_empty() {
        return Err(AppError::BadRequest("title is required".to_owned()));
    }
    Ok(title)
}

/// The most sessions of one listing.
pub const MAX_LIMIT: i64 = 200;

/// The part of the sessions to list: between 1 and 200 of them, from the first on at
/// the earliest.
pub fn list(q: &ListSessionsQuery) -> (r: (i64, i64))
    ensures
        r.0 == (if q.limit < 1 {
            1
        } else if q.limit > 200 {
            200
        } else {
            q.limit
        }),
        r.1 == (if q.offset < 0 {
            0
        } else {
            q.offset
        }),
        1 <= r.0 <= 200,
        0 <= r.1,
{
    let limit: i64 = if q.limit < 1 {
        1
    } else if q.limit > MAX_LIMIT {
        MAX_LIMIT
    } else {
        q.limit
    };
    let offset: i64 = if q.offset < 0 {
        0
    } else {
        q.offset
    };
    (limit, offset)
}

/// How often `needle` stands in `hay` from position `from` on, where one occurrence
/// starts behind the end of the one before.
pub open spec fn count_from(hay: Seq<char>, needle: Seq<char>, from: int) -> nat
    decreases hay.len() + 1 - from,
{
    if needle.len() == 0 || from < 0 {
        0
    } else {
        match text::find_from(hay, needle, from) {
            Some(i) => if from <= i && i + needle.len() <= hay.len() {
                1 + count_from(hay, needle, i + needle.len())
            } else {
                0
            },
            None => 0,
        }
    }
}

/// What starts the line of a memory.
pub const BULLET: &'static str = "\n- ";

/// How many lines of a text start as the line of a memory does.
pub fn count_bullets(content: &str) -> (n: usize)
    ensures
        n == count_from(content@, BULLET@, 0),
        n <= content@.len(),
{
    let hay = chars_of(content);
    let needle = chars_of(BULLET);
    proof {
        reveal_strlit("\n- ");
        assert(needle@.len() == 3);
    }
    let mut n: usize = 0;
    let mut from: usize = 0;
    loop
        invariant
            hay@ == content@,
            needle@ == BULLET@,
            needle@.len() == 3,
            from <= hay.len(),
            n <= from,
            n + count_from(hay@, needle@, from as int) == count_from(content@, BULLET@, 0),
        decreases hay@.len() - from,
    {
        proof {
            text::lemma_find_from(hay@, needle@, from as int);
        }
        match find_text(&hay, &needle, from) {
            Some(i) => {
                assert(i + 3 <= hay.len());
                from = i + needle.len();
                n = n + 1;
            },
            None => {
                return n;
            },
        }
    }
}

/// The sum of a list of numbers.
pub open spec fn total(counts: Seq<usize>) -> nat
    decreases counts.len(),
{
    if counts.len() == 0 {
        0
    } else {
        total(counts.drop_last()) + counts.last() as nat
    }
}

/// How many memories the system turn carries, going by the lines that look like one;
/// `0` where there is no system turn.
pub open spec fn injected(turns: Seq<ChatTurn>) -> nat
    decreases turns.len(),
{
    if turns.len() == 0 {
        0
    } else if turns.last().role == Role::System {
        count_from(turns.last().content@, BULLET@, 0)
    } else {
        injected(turns.drop_last())
    }
}

/// The turns as they are shown.
pub open spec fn debug_views(turns: Seq<DebugTurn>) -> Seq<engine::TurnView> {
    turns.map_values(|t: DebugTurn| engine::TurnView { role: t.role, content: t.content@ })
}

/// Shows what would be sent to the model for the next generation of a session, with
/// the tokens that the engine counted for each turn. The tokens have to be few enough
/// to be added up.
pub fn debug(
    session_id: u128,
    context_length: u32,
    turns: &Vec<ChatTurn>,
    counts: &Vec<usize>,
) -> (r: DebugContext)
    requires
        counts@.len() == turns@.len(),
        total(counts@) <= u32::MAX,
    ensures
        r.session_id == session_id,
        r.context_length == context_length,
        debug_views(r.turns@) == engine::turn_views(turns@),
        r.prompt_tokens_estimate == total(counts@),
        r.memories_injected == injected(turns@),
{
    let mut shown: Vec<DebugTurn> = Vec::new();
    let mut estimate: u32 = 0;
    let mut memories: usize = 0;
    let mut i: usize = 0;
    assert(counts@.take(0) =~= Seq::<usize>::empty());
    assert(turns@.take(0) =~= Seq::<ChatTurn>::empty());
    while i < turns.len()
        invariant
            i <= turns@.len(),
            counts@.len() == turns@.len(),
            total(counts@) <= u32::MAX,
            estimate == total(counts@.take(i as int)),
            memories == injected(turns@.take(i as int)),
            debug_views(shown@) == engine::turn_views(turns@.take(i as int)),
        decreases turns@.len() - i,
    {
        let ghost before = shown@;
        proof {
            assert(counts@.take(i + 1).drop_last() =~= counts@.take(i as int));
            assert(turns@.take(i + 1).drop_last() =~= turns@.take(i as int));
            lemma_total_prefix(counts@, i + 1);
        }
        estimate = estimate + counts[i] as u32;
        if turns[i].role == Role::System {
            memories = count_bullets(turns[i].content.as_str());
        }
        shown.push(DebugTurn { role: turns[i].role, content: turns[i].content.clone() });
        proof {
            assert(debug_views(shown@) =~= debug_views(before).push(turns@[i as int]@));
            assert(engine::turn_views(turns@.take(i + 1)) =~= engine::turn_views(
                turns@.take(i as int),
            ).push(turns@[i as int]@));
        }
        i = i + 1;
    }
    assert(counts@.take(counts@.len() as int) =~= counts@);
    assert(turns@.take(turns@.len() as int) =~= turns@);
    DebugContext {
        session_id,
        context_length,
        turns: shown,
        prompt_tokens_estimate: estimate,
        memories_injected: memories,
    }
}

proof fn lemma_total_prefix(counts: Seq<usize>, n: int)
    requires
        0 <= n <= counts.len(),
    ensures
        total(counts.take(n)) <= total(counts),
    decreases counts.len(),
{
    if n < counts.len() {
        lemma_total_prefix(counts.drop_last(), n);
        assert(counts.drop_last().take(n) =~= counts.take(n));
    } else {
        assert(counts.take(n) =~= counts);
    }
}

// ---------------------------------------------------------------------------
// Laws
// ---------------------------------------------------------------------------

/// A text without the start of a memory's line has none, and otherwise the first one counts
/// once and what stands behind it counts on its own.
pub proof fn law_each_bullet_counts(before: Seq<char>, rest: Seq<char>)
    requires
        forall|i: int|
            0 <= i < before.len() ==> #[trigger] (before + "\n- "@ + rest).subrange(i, i + 3) != "\n- "@,
    ensures
        count_from(before + "\n- "@ + rest, BULLET@, 0) == 1 + count_from(rest, BULLET@, 0),
{
    let hay = before + "\n- "@ + rest;
    reveal_strlit("\n- ");
    assert(BULLET@ =~= "\n- "@);
    let n = before.len() as int;
    assert(hay.subrange(n, n + 3) =~= "\n- "@);
    assert(text::occurs_at(hay, BULLET@, n));
    text::lemma_find_from(hay, BULLET@, 0);
    assert forall|j: int| 0 <= j < n implies !text::occurs_at(hay, BULLET@, j) by {
        assert(hay.subrange(j, j + 3) != "\n- "@);
    }
    assert(text::find_from(hay, BULLET@, 0) == Some(n));
    assert(hay.skip(n + 3) =~= rest);
    lemma_count_skip(hay, BULLET@, n + 3);
}

/// A text in which no line but the first starts as that of a memory does counts for none.
pub proof fn law_no_bullet_no_count(t: Seq<char>)
    requires
        forall|i: int| 0 <= i <= t.len() - 3 ==> #[trigger] t.subrange(i, i + 3) != "\n- "@,
    ensures
        count_from(t, BULLET@, 0) == 0,
{
    reveal_strlit("\n- ");
    assert(BULLET@ =~= "\n- "@);
    text::lemma_find_from(t, BULLET@, 0);
    if let Some(i) = text::find_from(t, BULLET@, 0) {
        assert(t.subrange(i, i + 3) == "\n- "@);
    }
}

proof fn lemma_count_skip(hay: Seq<char>, needle: Seq<char>, from: int)
    requires
        0 <= from <= hay.len(),
        needle.len() > 0,
    ensures
        count_from(hay, needle, from) == count_from(hay.skip(from), needle, 0),
    decreases hay.len() + 1 - from,
{
    let sub = hay.skip(from);
    text::lemma_find_from_skip(hay, needle, from, 0);
    text::lemma_find_from(hay, needle, from);
    if let Some(i) = text::find_from(hay, needle, from) {
        let next = i + needle.len();
        lemma_count_skip(hay, needle, next);
        lemma_count_skip(sub, needle, next - from);
        assert(sub.skip(next - from) =~= hay.skip(next));
    }
}

/// The memories that are counted are those of the last system turn, whatever other turns
/// say; without a system turn there are none.
pub proof fn law_system_turn_is_counted(turns: Seq<ChatTurn>, turn: ChatTurn)
    ensures
        injected(Seq::empty()) == 0,
        turn.role == Role::System ==> injected(turns.push(turn)) == count_from(
            turn.content@,
            "\n- "@,
            0,
        ),
        turn.role != Role::System ==> injected(turns.push(turn)) == injected(turns),
{
    assert(turns.push(turn).drop_last() =~= turns);
    assert(turns.push(turn).last() == turn);
}

/// The estimate is the sum of what was counted for each turn.
pub proof fn law_every_count_is_added(counts: Seq<usize>, n: usize)
    ensures
        total(Seq::empty()) == 0,
        total(counts.push(n)) == total(counts) + n,
{
    assert(counts.push(n).drop_last() =~= counts);
}

} // verus!
