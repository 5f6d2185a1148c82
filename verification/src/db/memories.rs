//! Rows of the `memories` table.

use vstd::prelude::*;
use vstd::string::*;

use crate::db::messages;
use crate::db::rows;
use crate::db::rows::{read_all, Row};
use crate::error::{AppError, ErrorView};
use crate::ids;
use crate::ids::{new_uuid, parse_uuid, show_uuid};
use crate::memory;
use crate::memory::{store_outcome, StoreOutcome};
use crate::types::{Memory, Timestamp};

verus! {

/// A memory as the table holds it.
#[derive(Debug, Clone)]
pub struct MemoryRow {
    pub id: String,
    pub content: String,
    pub source: String,
    pub created_at: Timestamp,
    pub updated_at: Timestamp,
}

/// A memory with its texts as characters.
pub struct MemoryView {
    pub id: u128,
    pub content: Seq<char>,
    pub source: Seq<char>,
    pub created_at: Timestamp,
    pub updated_at: Timestamp,
}

impl View for Memory {
    type V = MemoryView;

    open spec fn view(&self) -> MemoryView {
        MemoryView {
            id: self.id,
            content: self.content@,
            source: self.source@,
            created_at: self.created_at,
            updated_at: self.updated_at,
        }
    }
}

/// What a row means, given what its id is read as.
pub open spec fn memory_read(row: MemoryRow, id: Result<u128, Seq<char>>) -> Result<
    MemoryView,
    ErrorView,
> {
    match id {
        Err(e) => Err(ErrorView::Uuid(e)),
        Ok(id) => Ok(
            MemoryView {
                id,
                content: row.content@,
                source: row.source@,
                created_at: row.created_at,
                updated_at: row.updated_at,
            },
        ),
    }
}

/// What a row means.
pub open spec fn memory_of(row: MemoryRow) -> Result<MemoryView, ErrorView> {
    memory_read(row, ids::uuid_parse(row.id@))
}

/// The row that a memory is stored as: its UUID as text.
pub open spec fn is_row_of(row: MemoryRow, m: MemoryView) -> bool {
    &&& row.id@ == ids::uuid_text(m.id)
    &&& row.content@ == m.content
    &&& row.source@ == m.source
    &&& row.created_at == m.created_at
    &&& row.updated_at == m.updated_at
}

/// Makes a memory of a row, given what its id is read as.
pub fn read_memory(row: &MemoryRow, id: Result<u128, String>) -> (r: Result<Memory, AppError>)
    ensures
        rows::outcome(r) == memory_read(*row, messages::id_outcome(id)),
{
    match id {
        Ok(id) => Ok(
            Memory {
                id,
                content: row.content.clone(),
                source: row.source.clone(),
                created_at: row.created_at,
                updated_at: row.updated_at,
            },
        ),
        Err(e) => Err(AppError::Uuid(e)),
    }
}

/// Makes a memory of a row. A memory is read back from the row that it is stored as.
pub fn row_to_memory(row: &MemoryRow) -> (r: Result<Memory, AppError>)
    ensures
        rows::outcome(r) == memory_of(*row),
        forall|m: MemoryView| #[trigger] is_row_of(*row, m) ==> rows::outcome(r) == Ok::<
            MemoryView,
            ErrorView,
        >(m),
{
    let id = parse_uuid(row.id.as_str());
    read_memory(row, id)
}

/// The row of a new memory. The id is random.
pub fn upsert(content: &str, source: &str, now: Timestamp) -> (row: MemoryRow)
    ensures
        row.content@ == content@,
        row.source@ == source@,
        row.created_at == now,
        row.updated_at == now,
        exists|id: u128| row.id@ == #[trigger] ids::uuid_text(id),
{
    let id = new_uuid();
    new_row(id, content, source, now)
}

/// The row of a memory with the id `id`.
pub fn new_row(id: u128, content: &str, source: &str, now: Timestamp) -> (row: MemoryRow)
    ensures
        is_row_of(
            row,
            MemoryView {
                id,
                content: content@,
                source: source@,
                created_at: now,
                updated_at: now,
            },
        ),
{
    MemoryRow {
        id: show_uuid(id),
        content: content.to_owned(),
        source: source.to_owned(),
        created_at: now,
        updated_at: now,
    }
}

/// What came of storing a memory: the memory of the row that holds its content now, and
/// whether the row is new. Where it was there before, it is the row that was there.
pub fn upserted(rows_affected: u64, row: &MemoryRow) -> (r: Result<
    (Memory, StoreOutcome),
    AppError,
>)
    ensures
        match r {
            Ok((m, o)) => memory_of(*row) == Ok::<MemoryView, ErrorView>(m@) && o == memory::stored(
                rows_affected as int,
            ),
            Err(e) => memory_of(*row) == Err::<MemoryView, ErrorView>(e@),
        },
        forall|m: MemoryView| #[trigger]
            is_row_of(*row, m) ==> (r matches Ok((found, _)) && found@ == m),
{
    match row_to_memory(row) {
        Ok(m) => Ok((m, store_outcome(rows_affected))),
        Err(e) => Err(e),
    }
}

/// What came of deleting a memory, by the number of rows that went.
pub open spec fn deleted(rows_affected: int) -> Result<(), ErrorView> {
    if rows_affected == 0 {
        Err(ErrorView::MemoryNotFound)
    } else {
        Ok(())
    }
}

/// What came of deleting a memory: where no row went, there was none.
pub fn delete(rows_affected: u64) -> (r: Result<(), AppError>)
    ensures
        match r {
            Ok(_) => deleted(rows_affected as int) is Ok,
            Err(e) => deleted(rows_affected as int) == Err::<(), ErrorView>(e@),
        },
{
    if rows_affected == 0 {
        return Err(AppError::MemoryNotFound);
    }
    Ok(())
}

impl Row for MemoryRow {
    type Item = Memory;

    open spec fn meaning(&self) -> Result<MemoryView, ErrorView> {
        memory_of(*self)
    }

    open spec fn stores(&self, item: MemoryView) -> bool {
        is_row_of(*self, item)
    }

    fn read(&self) -> (r: Result<Memory, AppError>) {
        row_to_memory(self)
    }
}

/// Reads the rows of a table: the memories in order, or the error of the first row that
/// cannot be read. Stored memories are read back.
pub fn list(rows: &Vec<MemoryRow>) -> (r: Result<Vec<Memory>, AppError>)
    ensures
        rows::list_outcome(r) == rows::all_of(rows@),
        forall|items: Seq<MemoryView>| #[trigger]
            rows::store_all(rows@, items) ==> rows::list_outcome(r) == Ok::<
                Seq<MemoryView>,
                ErrorView,
            >(items),
{
    read_all(rows)
}

/// A row whose id can be read is the memory with this id and with all else that the row
/// holds; one whose id cannot be read is refused for it.
pub proof fn law_memory_row_is_read(row: MemoryRow, id: u128, e: Seq<char>)
    ensures
        memory_read(row, Ok(id)) matches Ok(m) && {
            &&& m.id == id
            &&& m.content == row.content@
            &&& m.source == row.source@
            &&& m.created_at == row.created_at
            &&& m.updated_at == row.updated_at
        },
        memory_read(row, Err(e)) == Err::<MemoryView, ErrorView>(ErrorView::Uuid(e)),
{
}

/// A deletion of no row finds no memory, and any other succeeds.
pub proof fn law_deletion_needs_a_memory(n: int)
    ensures
        deleted(n) is Ok <==> n != 0,
        deleted(0) == Err::<(), ErrorView>(ErrorView::MemoryNotFound),
{
}

} // verus!
