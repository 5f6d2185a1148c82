//! What the statements do to the tables.
//!
//! The schema gives a session one row, removes the messages of a session with it, and
//! keeps one row to the content of a memory. The statements are run by the database; what
//! follows from the schema for the answers that are made of their results is stated here.

use vstd::prelude::*;

use crate::db::memories::MemoryRow;
use crate::db::messages::MessageRow;
use crate::db::sessions;
use crate::db::sessions::SessionRow;
use crate::error::ErrorView;
use crate::memory;
use crate::memory::StoreOutcome;

verus! {

/// The rows of all tables, in the order in which they were inserted.
pub struct Tables {
    pub sessions: Seq<SessionRow>,
    pub messages: Seq<MessageRow>,
    pub memories: Seq<MemoryRow>,
}

/// The rows that meet a condition, in order.
pub open spec fn only<R>(rows: Seq<R>, keep: spec_fn(R) -> bool) -> Seq<R>
    decreases rows.len(),
{
    if rows.len() == 0 {
        Seq::empty()
    } else {
        let front = only(rows.drop_last(), keep);
        if keep(rows.last()) {
            front.push(rows.last())
        } else {
            front
        }
    }
}

/// The first of the rows, where there is one.
pub open spec fn first_of<R>(rows: Seq<R>) -> Option<R> {
    if rows.len() == 0 {
        None
    } else {
        Some(rows[0])
    }
}

/// A session has this id.
pub open spec fn named(id: Seq<char>) -> spec_fn(SessionRow) -> bool {
    |r: SessionRow| r.id@ == id
}

/// A session has another id.
pub open spec fn not_named(id: Seq<char>) -> spec_fn(SessionRow) -> bool {
    |r: SessionRow| r.id@ != id
}

/// A message is of the session with this id.
pub open spec fn of_session(id: Seq<char>) -> spec_fn(MessageRow) -> bool {
    |r: MessageRow| r.session_id@ == id
}

/// A message is of another session.
pub open spec fn of_others(id: Seq<char>) -> spec_fn(MessageRow) -> bool {
    |r: MessageRow| r.session_id@ != id
}

/// A memory has this content.
pub open spec fn saying(content: Seq<char>) -> spec_fn(MemoryRow) -> bool {
    |r: MemoryRow| r.content@ == content
}

// ---------------------------------------------------------------------------
// Statements
// ---------------------------------------------------------------------------

/// `SELECT ... FROM sessions WHERE id = ?`
pub open spec fn session_found(t: Tables, id: Seq<char>) -> Option<SessionRow> {
    first_of(only(t.sessions, named(id)))
}

/// `SELECT ... FROM messages WHERE session_id = ?`
pub open spec fn session_messages(t: Tables, id: Seq<char>) -> Seq<MessageRow> {
    only(t.messages, of_session(id))
}

/// `INSERT INTO messages ...`
pub open spec fn message_inserted(t: Tables, row: MessageRow) -> Tables {
    Tables { messages: t.messages.push(row), ..t }
}

/// `DELETE FROM sessions WHERE id = ?`, and the number of sessions that went. Their
/// messages go with them.
pub open spec fn session_deleted(t: Tables, id: Seq<char>) -> (Tables, int) {
    let left = only(t.sessions, not_named(id));
    (
        Tables {
            sessions: left,
            messages: only(t.messages, of_others(id)),
            memories: t.memories,
        },
        t.sessions.len() - left.len(),
    )
}

/// A memory has this content.
pub open spec fn has_content(rows: Seq<MemoryRow>, content: Seq<char>) -> bool {
    exists|i: int| 0 <= i < rows.len() && (#[trigger] rows[i]).content@ == content
}

/// A memory has this id.
pub open spec fn has_id(rows: Seq<MemoryRow>, id: Seq<char>) -> bool {
    exists|i: int| 0 <= i < rows.len() && (#[trigger] rows[i]).id@ == id
}

/// `INSERT OR IGNORE INTO memories ...`, and the number of rows inserted: a row whose id
/// or content is there already is left out.
pub open spec fn memory_inserted(t: Tables, row: MemoryRow) -> (Tables, int) {
    if has_content(t.memories, row.content@) || has_id(t.memories, row.id@) {
        (t, 0)
    } else {
        (Tables { memories: t.memories.push(row), ..t }, 1)
    }
}

/// `SELECT ... FROM memories WHERE content = ?`
pub open spec fn memory_found(t: Tables, content: Seq<char>) -> Option<MemoryRow> {
    first_of(only(t.memories, saying(content)))
}

/// No two memories have the same content.
pub open spec fn distinct_contents(rows: Seq<MemoryRow>) -> bool {
    forall|i: int, j: int|
        0 <= i < j < rows.len() ==> (#[trigger] rows[i]).content@ != (#[trigger] rows[j]).content@
}

// ---------------------------------------------------------------------------
// Sessions
// ---------------------------------------------------------------------------

/// A session that was deleted is gone, and so are its messages: a lookup finds no session,
/// a listing no message, and a second deletion no session. The deletion itself succeeds
/// exactly when a lookup would have found the session.
pub proof fn law_deleted_session_is_gone(t: Tables, id: Seq<char>)
    ensures
        ({
            let (after, n) = session_deleted(t, id);
            &&& sessions::deleted(n) is Ok <==> session_found(t, id) is Some
            &&& sessions::got(session_found(after, id)) == Err::<sessions::SessionView, ErrorView>(
                ErrorView::SessionNotFound,
            )
            &&& session_messages(after, id) == Seq::<MessageRow>::empty()
            &&& session_deleted(after, id) == (after, 0int)
            &&& sessions::deleted(session_deleted(after, id).1) == Err::<(), ErrorView>(
                ErrorView::SessionNotFound,
            )
        }),
{
    lemma_split(t.sessions, named(id), not_named(id));
    lemma_none_left(t.sessions, named(id), not_named(id));
    lemma_none_left(t.messages, of_session(id), of_others(id));
    lemma_twice(t.sessions, not_named(id), not_named(id));
    lemma_twice(t.messages, of_others(id), of_others(id));
}

/// Deleting a session leaves the other sessions, their messages and the memories as they
/// are.
pub proof fn law_deletion_keeps_others(t: Tables, id: Seq<char>, other: Seq<char>)
    requires
        other != id,
    ensures
        session_found(session_deleted(t, id).0, other) == session_found(t, other),
        session_messages(session_deleted(t, id).0, other) == session_messages(t, other),
        session_deleted(t, id).0.memories == t.memories,
{
    lemma_twice(t.sessions, not_named(id), named(other));
    lemma_twice(t.messages, of_others(id), of_session(other));
}

/// A message that was stored is listed last for its session, and for no other.
pub proof fn law_stored_message_is_listed(t: Tables, row: MessageRow, other: Seq<char>)
    requires
        other != row.session_id@,
    ensures
        session_messages(message_inserted(t, row), row.session_id@) == session_messages(
            t,
            row.session_id@,
        ).push(row),
        session_messages(message_inserted(t, row), other) == session_messages(t, other),
{
    assert(t.messages.push(row).drop_last() =~= t.messages);
}

// ---------------------------------------------------------------------------
// Memories
// ---------------------------------------------------------------------------

/// Storing a memory keeps contents distinct. Where its content is known, the table is left
/// as it is and the row that was there is found; else the new row is, unless its id is
/// taken.
pub proof fn law_memory_is_stored_once(t: Tables, row: MemoryRow)
    requires
        distinct_contents(t.memories),
    ensures
        ({
            let (after, n) = memory_inserted(t, row);
            &&& distinct_contents(after.memories)
            &&& has_content(t.memories, row.content@) ==> after == t && memory::stored(n)
                == StoreOutcome::Existing && memory_found(after, row.content@) is Some
                && memory_found(after, row.content@) == memory_found(t, row.content@)
            &&& !has_content(t.memories, row.content@) && !has_id(t.memories, row.id@)
                ==> memory::stored(n) == StoreOutcome::Inserted && memory_found(
                after,
                row.content@,
            ) == Some(row)
        }),
{
    let same = saying(row.content@);
    lemma_found(t.memories, same);
    let rows = t.memories.push(row);
    assert(rows.drop_last() =~= t.memories);
    if has_content(t.memories, row.content@) {
        let i = choose|i: int|
            0 <= i < t.memories.len() && (#[trigger] t.memories[i]).content@ == row.content@;
        assert(same(t.memories[i]));
    } else if only(t.memories, same).len() > 0 {
        let i = choose|i: int| 0 <= i < t.memories.len() && same(#[trigger] t.memories[i]);
        assert(t.memories[i].content@ == row.content@);
    }
}

/// A memory that is stored a second time, under another id, from another source or at
/// another time, is the memory that was stored first: the row is found untouched, and the
/// table is left as it is.
pub proof fn law_second_upsert_finds_first(t: Tables, first: MemoryRow, second: MemoryRow)
    requires
        distinct_contents(t.memories),
        !has_id(t.memories, first.id@),
        !has_content(t.memories, first.content@),
        second.content@ == first.content@,
    ensures
        ({
            let once = memory_inserted(t, first).0;
            let (twice, n) = memory_inserted(once, second);
            &&& twice == once
            &&& memory::stored(n) == StoreOutcome::Existing
            &&& memory_found(twice, second.content@) == Some(first)
        }),
{
    let once = memory_inserted(t, first).0;
    assert(once.memories[t.memories.len() as int] == first);
    assert(has_content(once.memories, second.content@));
    law_memory_is_stored_once(t, first);
    law_memory_is_stored_once(once, second);
}

/// Rows stored one after the other, and what came of each.
pub open spec fn all_inserted(t: Tables, rows: Seq<MemoryRow>) -> (Tables, Seq<StoreOutcome>)
    decreases rows.len(),
{
    if rows.len() == 0 {
        (t, Seq::empty())
    } else {
        let (before, outcomes) = all_inserted(t, rows.drop_last());
        let (after, n) = memory_inserted(before, rows.last());
        (after, outcomes.push(memory::stored(n)))
    }
}

/// The contents of rows.
pub open spec fn contents(rows: Seq<MemoryRow>) -> Seq<Seq<char>> {
    rows.map_values(|r: MemoryRow| r.content@)
}

/// All contents are in the table.
pub open spec fn all_known(t: Tables, texts: Seq<Seq<char>>) -> bool {
    forall|i: int| 0 <= i < texts.len() ==> has_content(t.memories, #[trigger] texts[i])
}

/// Storing facts makes each of them known, unless the id of a row is taken.
pub proof fn law_stored_facts_are_known(t: Tables, rows: Seq<MemoryRow>)
    requires
        forall|i: int|
            0 <= i < rows.len() ==> !has_id(
                all_inserted(t, rows.take(i)).0.memories,
                (#[trigger] rows[i]).id@,
            ),
    ensures
        all_known(all_inserted(t, rows).0, contents(rows)),
    decreases rows.len(),
{
    if rows.len() > 0 {
        let front = rows.drop_last();
        assert forall|i: int| 0 <= i < front.len() implies !has_id(
            all_inserted(t, front.take(i)).0.memories,
            (#[trigger] front[i]).id@,
        ) by {
            assert(front.take(i) =~= rows.take(i));
            assert(front[i] == rows[i]);
        }
        law_stored_facts_are_known(t, front);
        let before = all_inserted(t, front).0;
        let after = all_inserted(t, rows).0;
        assert(rows.take(rows.len() - 1) =~= front);
        assert(!has_id(before.memories, rows[rows.len() - 1].id@));
        lemma_stays_known(before, rows.last());
        assert forall|i: int| 0 <= i < contents(rows).len() implies has_content(
            after.memories,
            #[trigger] contents(rows)[i],
        ) by {
            if i < front.len() {
                assert(contents(front)[i] == contents(rows)[i]);
                assert(has_content(before.memories, contents(front)[i]));
            } else if !has_content(before.memories, rows.last().content@) {
                assert(after.memories[before.memories.len() as int] == rows.last());
            }
        }
    }
}

/// The facts of a message count once: where all of them are known, as they are once they
/// were stored, storing them again inserts nothing and leaves the tables as they are.
pub proof fn law_known_facts_count_nothing(t: Tables, content: Seq<char>, rows: Seq<MemoryRow>)
    requires
        contents(rows) == memory::facts(content, memory::unicode_lower()),
        all_known(t, memory::facts(content, memory::unicode_lower())),
    ensures
        all_inserted(t, rows).0 == t,
        memory::inserted(all_inserted(t, rows).1) == 0,
{
    lemma_known_rows(t, rows);
}

proof fn lemma_known_rows(t: Tables, rows: Seq<MemoryRow>)
    requires
        all_known(t, contents(rows)),
    ensures
        all_inserted(t, rows).0 == t,
        memory::inserted(all_inserted(t, rows).1) == 0,
    decreases rows.len(),
{
    if rows.len() > 0 {
        let front = rows.drop_last();
        assert forall|i: int| 0 <= i < contents(front).len() implies has_content(
            t.memories,
            #[trigger] contents(front)[i],
        ) by {
            assert(contents(front)[i] == contents(rows)[i]);
        }
        lemma_known_rows(t, front);
        assert(contents(rows)[rows.len() - 1] == rows.last().content@);
        let outcomes = all_inserted(t, rows).1;
        assert(outcomes.drop_last() =~= all_inserted(t, front).1);
    }
}

/// What is known stays known.
proof fn lemma_stays_known(t: Tables, row: MemoryRow)
    ensures
        forall|content: Seq<char>|
            has_content(t.memories, content) ==> #[trigger] has_content(
                memory_inserted(t, row).0.memories,
                content,
            ),
{
    let after = memory_inserted(t, row).0.memories;
    assert forall|content: Seq<char>| has_content(t.memories, content) implies #[trigger] has_content(
        after,
        content,
    ) by {
        let i = choose|i: int|
            0 <= i < t.memories.len() && (#[trigger] t.memories[i]).content@ == content;
        assert(after[i] == t.memories[i]);
    }
}

// ---------------------------------------------------------------------------
// Rows that meet a condition
// ---------------------------------------------------------------------------

/// Every row meets either a condition or its opposite.
proof fn lemma_split<R>(rows: Seq<R>, a: spec_fn(R) -> bool, b: spec_fn(R) -> bool)
    requires
        forall|r: R| #[trigger] a(r) == !b(r),
    ensures
        only(rows, a).len() + only(rows, b).len() == rows.len(),
    decreases rows.len(),
{
    if rows.len() > 0 {
        lemma_split(rows.drop_last(), a, b);
        assert(a(rows.last()) == !b(rows.last()));
    }
}

/// No row meets both a condition and its opposite.
proof fn lemma_none_left<R>(rows: Seq<R>, a: spec_fn(R) -> bool, b: spec_fn(R) -> bool)
    requires
        forall|r: R| #[trigger] a(r) == !b(r),
    ensures
        only(only(rows, b), a) == Seq::<R>::empty(),
    decreases rows.len(),
{
    if rows.len() > 0 {
        lemma_none_left(rows.drop_last(), a, b);
        assert(a(rows.last()) == !b(rows.last()));
        let front = only(rows.drop_last(), b);
        assert(front.push(rows.last()).drop_last() =~= front);
    }
}

/// A condition that is met by fewer rows leaves the same rows, whether the other one
/// is asked first or not.
proof fn lemma_twice<R>(rows: Seq<R>, wide: spec_fn(R) -> bool, narrow: spec_fn(R) -> bool)
    requires
        forall|r: R| #[trigger] narrow(r) ==> wide(r),
    ensures
        only(only(rows, wide), narrow) == only(rows, narrow),
    decreases rows.len(),
{
    if rows.len() > 0 {
        lemma_twice(rows.drop_last(), wide, narrow);
        assert(narrow(rows.last()) ==> wide(rows.last()));
        let front = only(rows.drop_last(), wide);
        assert(front.push(rows.last()).drop_last() =~= front);
    }
}

/// Some row is left exactly when some row meets the condition.
proof fn lemma_found<R>(rows: Seq<R>, keep: spec_fn(R) -> bool)
    ensures
        only(rows, keep).len() > 0 <==> exists|i: int|
            0 <= i < rows.len() && keep(#[trigger] rows[i]),
    decreases rows.len(),
{
    if rows.len() > 0 {
        let front = rows.drop_last();
        lemma_found(front, keep);
        if exists|i: int| 0 <= i < front.len() && keep(#[trigger] front[i]) {
            let i = choose|i: int| 0 <= i < front.len() && keep(#[trigger] front[i]);
            assert(keep(rows[i]));
        }
        if exists|i: int| 0 <= i < rows.len() && keep(#[trigger] rows[i]) {
            let i = choose|i: int| 0 <= i < rows.len() && keep(#[trigger] rows[i]);
            if i < front.len() {
                assert(keep(front[i]));
            }
        }
        if keep(rows.last()) {
            assert(keep(rows[rows.len() - 1]));
        }
    }
}

} // verus!
