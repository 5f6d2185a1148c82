//! Rows of the `sessions` table.

use vstd::prelude::*;
use vstd::string::*;

use crate::db::messages;
use crate::db::rows;
use crate::db::rows::{read_all, Row};
use crate::error::{AppError, ErrorView};
use crate::ids;
use crate::ids::{new_uuid, parse_uuid, show_uuid};
use crate::json;
use crate::json::{json_object, parse_json, Json};
use crate::types;
use crate::types::{Session, Timestamp};

verus! {

/// A session as the table holds it.
#[derive(Debug, Clone)]
pub struct SessionRow {
    pub id: String,
    pub title: String,
    pub model_name: String,
    pub system_prompt: Option<String>,
    pub created_at: Timestamp,
    pub updated_at: Timestamp,
    pub metadata: String,
}

/// A session with its texts as characters.
pub struct SessionView {
    pub id: u128,
    pub title: Seq<char>,
    pub model_name: Seq<char>,
    pub system_prompt: Option<Seq<char>>,
    pub created_at: Timestamp,
    pub updated_at: Timestamp,
    pub metadata: Json,
}

impl View for Session {
    type V = SessionView;

    open spec fn view(&self) -> SessionView {
        SessionView {
            id: self.id,
            title: self.title@,
            model_name: self.model_name@,
            system_prompt: types::optional_text(self.system_prompt),
            created_at: self.created_at,
            updated_at: self.updated_at,
            metadata: json::json_view(self.metadata),
        }
    }
}

/// What a row means, given what its texts are read as: the first of them that cannot
/// be read makes the error.
pub open spec fn session_read(
    row: SessionRow,
    id: Result<u128, Seq<char>>,
    metadata: Result<Json, Seq<char>>,
) -> Result<SessionView, ErrorView> {
    match (id, metadata) {
        (Err(e), _) => Err(ErrorView::Uuid(e)),
        (Ok(_), Err(e)) => Err(ErrorView::Json(e)),
        (Ok(id), Ok(metadata)) => Ok(
            SessionView {
                id,
                title: row.title@,
                model_name: row.model_name@,
                system_prompt: types::optional_text(row.system_prompt),
                created_at: row.created_at,
                updated_at: row.updated_at,
                metadata,
            },
        ),
    }
}

/// What a row means.
pub open spec fn session_of(row: SessionRow) -> Result<SessionView, ErrorView> {
    session_read(row, ids::uuid_parse(row.id@), json::json_parse(row.metadata@))
}

/// The row that a session is stored as: its UUID as text, and no metadata.
pub open spec fn is_row_of(row: SessionRow, s: SessionView) -> bool {
    &&& row.id@ == ids::uuid_text(s.id)
    &&& row.title@ == s.title
    &&& row.model_name@ == s.model_name
    &&& types::optional_text(row.system_prompt) == s.system_prompt
    &&& row.created_at == s.created_at
    &&& row.updated_at == s.updated_at
    &&& row.metadata@ == "{}"@
    &&& s.metadata == json::empty_object()
}

/// Makes a session of a row, given what its texts are read as.
pub fn read_session(
    row: &SessionRow,
    id: Result<u128, String>,
    metadata: Result<serde_json::Value, String>,
) -> (r: Result<Session, AppError>)
    ensures
        rows::outcome(r) == session_read(
            *row,
            messages::id_outcome(id),
            json::value_outcome(metadata),
        ),
{
    let id = match id {
        Ok(id) => id,
        Err(e) => {
            return Err(AppError::Uuid(e));
        },
    };
    match metadata {
        Ok(metadata) => Ok(
            Session {
                id,
                title: row.title.clone(),
                model_name: row.model_name.clone(),
                system_prompt: row.system_prompt.clone(),
                created_at: row.created_at,
                updated_at: row.updated_at,
                metadata,
            },
        ),
        Err(e) => Err(AppError::Json(e)),
    }
}

/// Makes a session of a row. A session is read back from the row that it is stored
/// as.
pub fn row_to_session(row: &SessionRow) -> (r: Result<Session, AppError>)
    ensures
        rows::outcome(r) == session_of(*row),
        forall|s: SessionView| #[trigger] is_row_of(*row, s) ==> rows::outcome(r) == Ok::<
            SessionView,
            ErrorView,
        >(s),
{
    let id = parse_uuid(row.id.as_str());
    let metadata = parse_json(row.metadata.as_str());
    read_session(row, id, metadata)
}

/// A new session, and the row that it is stored as. The id is random.
pub fn create(
    title: &str,
    model_name: &str,
    system_prompt: Option<String>,
    now: Timestamp,
) -> (r: (Session, SessionRow))
    ensures
        r.0@.title == title@,
        r.0@.model_name == model_name@,
        r.0@.system_prompt == types::optional_text(system_prompt),
        r.0@.created_at == now,
        r.0@.updated_at == now,
        r.0@.metadata == json::empty_object(),
        is_row_of(r.1, r.0@),
{
    new_session(new_uuid(), title, model_name, system_prompt, now)
}

/// A session with the id `id`, and the row that it is stored as.
pub fn new_session(
    id: u128,
    title: &str,
    model_name: &str,
    system_prompt: Option<String>,
    now: Timestamp,
) -> (r: (Session, SessionRow))
    ensures
        r.0@ == (SessionView {
            id,
            title: title@,
            model_name: model_name@,
            system_prompt: types::optional_text(system_prompt),
            created_at: now,
            updated_at: now,
            metadata: json::empty_object(),
        }),
        is_row_of(r.1, r.0@),
{
    let fields: Vec<(String, serde_json::Value)> = Vec::new();
    assert(json::pair_views(fields@) =~= Seq::empty());
    let row = SessionRow {
        id: show_uuid(id),
        title: title.to_owned(),
        model_name: model_name.to_owned(),
        system_prompt: system_prompt.clone(),
        created_at: now,
        updated_at: now,
        metadata: "{}".to_owned(),
    };
    let session = Session {
        id,
        title: title.to_owned(),
        model_name: model_name.to_owned(),
        system_prompt,
        created_at: now,
        updated_at: now,
        metadata: json_object(fields),
    };
    (session, row)
}

/// What a lookup came to. No row is no session.
pub open spec fn got(row: Option<SessionRow>) -> Result<SessionView, ErrorView> {
    match row {
        Some(row) => session_of(row),
        None => Err(ErrorView::SessionNotFound),
    }
}

/// The session that a lookup came to. No row is no session; a stored session is read
/// back.
pub fn get(row: Option<SessionRow>) -> (r: Result<Session, AppError>)
    ensures
        rows::outcome(r) == got(row),
        row matches Some(row) ==> forall|s: SessionView| #[trigger]
            is_row_of(row, s) ==> rows::outcome(r) == Ok::<SessionView, ErrorView>(s),
{
    match row {
        Some(row) => row_to_session(&row),
        None => Err(AppError::SessionNotFound),
    }
}

/// The session that was touched last, where there is one. A stored session is read back.
pub fn most_recent(row: Option<SessionRow>) -> (r: Result<Option<Session>, AppError>)
    ensures
        match row {
            Some(row) => match r {
                Ok(Some(s)) => session_of(row) == Ok::<SessionView, ErrorView>(s@),
                Ok(None) => false,
                Err(e) => session_of(row) == Err::<SessionView, ErrorView>(e@),
            },
            None => r matches Ok(None),
        },
        row matches Some(row) ==> forall|s: SessionView| #[trigger]
            is_row_of(row, s) ==> (r matches Ok(Some(found)) && found@ == s),
{
    match row {
        Some(row) => match row_to_session(&row) {
            Ok(s) => Ok(Some(s)),
            Err(e) => Err(e),
        },
        None => Ok(None),
    }
}

/// What came of deleting a session, by the number of rows that went.
pub open spec fn deleted(rows_affected: int) -> Result<(), ErrorView> {
    if rows_affected == 0 {
        Err(ErrorView::SessionNotFound)
    } else {
        Ok(())
    }
}

/// What came of deleting a session: where no row went, there was none.
pub fn delete(rows_affected: u64) -> (r: Result<(), AppError>)
    ensures
        match r {
            Ok(_) => deleted(rows_affected as int) is Ok,
            Err(e) => deleted(rows_affected as int) == Err::<(), ErrorView>(e@),
        },
{
    if rows_affected == 0 {
        return Err(AppError::SessionNotFound);
    }
    Ok(())
}

impl Row for SessionRow {
    type Item = Session;

    open spec fn meaning(&self) -> Result<SessionView, ErrorView> {
        session_of(*self)
    }

    open spec fn stores(&self, item: SessionView) -> bool {
        is_row_of(*self, item)
    }

    fn read(&self) -> (r: Result<Session, AppError>) {
        row_to_session(self)
    }
}

/// Reads the rows of a listing: the sessions in order, or the error of the first row that
/// cannot be read. Stored sessions are read back.
pub fn list(rows: &Vec<SessionRow>) -> (r: Result<Vec<Session>, AppError>)
    ensures
        rows::list_outcome(r) == rows::all_of(rows@),
        forall|items: Seq<SessionView>| #[trigger]
            rows::store_all(rows@, items) ==> rows::list_outcome(r) == Ok::<
                Seq<SessionView>,
                ErrorView,
            >(items),
{
    read_all(rows)
}

/// A row whose texts can be read is the session with the id and the metadata that were read,
/// and with all else that the row holds.
pub proof fn law_session_row_is_read(row: SessionRow, id: u128, metadata: Json)
    ensures
        session_read(row, Ok(id), Ok(metadata)) matches Ok(s) && {
            &&& s.id == id
            &&& s.title == row.title@
            &&& s.model_name == row.model_name@
            &&& s.system_prompt is Some <==> row.system_prompt is Some
            &&& row.system_prompt matches Some(p) ==> s.system_prompt == Some(p@)
            &&& s.created_at == row.created_at
            &&& s.updated_at == row.updated_at
            &&& s.metadata == metadata
        },
{
}

/// A row that cannot be read is refused for its id first, and then for its metadata. A
/// deletion of no row, and a lookup without one, find no session.
pub proof fn law_broken_session_row(
    row: SessionRow,
    id: Result<u128, Seq<char>>,
    metadata: Result<Json, Seq<char>>,
    n: int,
)
    ensures
        id matches Err(e) ==> session_read(row, id, metadata) == Err::<SessionView, ErrorView>(
            ErrorView::Uuid(e),
        ),
        id is Ok ==> (metadata matches Err(e) ==> session_read(row, id, metadata) == Err::<
            SessionView,
            ErrorView,
        >(ErrorView::Json(e))),
        got(None) == Err::<SessionView, ErrorView>(ErrorView::SessionNotFound),
        got(Some(row)) != Err::<SessionView, ErrorView>(ErrorView::SessionNotFound),
        deleted(n) is Ok <==> n != 0,
        deleted(0) == Err::<(), ErrorView>(ErrorView::SessionNotFound),
{
}

} // verus!
