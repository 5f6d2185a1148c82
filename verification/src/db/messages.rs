//! Rows of the `messages` table.

use vstd::prelude::*;
use vstd::string::*;

use crate::db::rows;
use crate::db::rows::{read_all, Row};
use crate::error::{AppError, ErrorView};
use crate::ids;
use crate::ids::{new_uuid, parse_uuid, show_uuid};
use crate::json;
use crate::json::{json_object, parse_json, Json};
use crate::types;
use crate::types::{Message, Role, Timestamp};

verus! {

/// A message as the table holds it.
#[derive(Debug, Clone)]
pub struct MessageRow {
    pub id: String,
    pub session_id: String,
    pub role: String,
    pub content: String,
    pub token_count: i64,
    pub created_at: Timestamp,
    pub metadata: String,
}

/// A message with its texts as characters.
pub struct MessageView {
    pub id: u128,
    pub session_id: u128,
    pub role: Role,
    pub content: Seq<char>,
    pub token_count: i64,
    pub created_at: Timestamp,
    pub metadata: Json,
}

impl View for Message {
    type V = MessageView;

    open spec fn view(&self) -> MessageView {
        MessageView {
            id: self.id,
            session_id: self.session_id,
            role: self.role,
            content: self.content@,
            token_count: self.token_count,
            created_at: self.created_at,
            metadata: json::json_view(self.metadata),
        }
    }
}

/// What a row means, given what its texts are read as: the first of them that cannot
/// be read makes the error.
pub open spec fn message_read(
    row: MessageRow,
    id: Result<u128, Seq<char>>,
    session_id: Result<u128, Seq<char>>,
    metadata: Result<Json, Seq<char>>,
) -> Result<MessageView, ErrorView> {
    match types::role_named(row.role@) {
        None => Err(ErrorView::Internal("unknown role: "@ + row.role@)),
        Some(role) => match (id, session_id, metadata) {
            (Err(e), _, _) => Err(ErrorView::Uuid(e)),
            (Ok(_), Err(e), _) => Err(ErrorView::Uuid(e)),
            (Ok(_), Ok(_), Err(e)) => Err(ErrorView::Json(e)),
            (Ok(id), Ok(session_id), Ok(metadata)) => Ok(
                MessageView {
                    id,
                    session_id,
                    role,
                    content: row.content@,
                    token_count: row.token_count,
                    created_at: row.created_at,
                    metadata,
                },
            ),
        },
    }
}

/// What a row means.
pub open spec fn message_of(row: MessageRow) -> Result<MessageView, ErrorView> {
    message_read(
        row,
        ids::uuid_parse(row.id@),
        ids::uuid_parse(row.session_id@),
        json::json_parse(row.metadata@),
    )
}

/// The outcome of reading a UUID, with its error as characters.
pub open spec fn id_outcome(r: Result<u128, String>) -> Result<u128, Seq<char>> {
    match r {
        Ok(id) => Ok(id),
        Err(e) => Err(e@),
    }
}

/// The row that a message is stored as: its UUIDs as text, its role by name, and no
/// metadata.
pub open spec fn is_row_of(row: MessageRow, m: MessageView) -> bool {
    &&& row.id@ == ids::uuid_text(m.id)
    &&& row.session_id@ == ids::uuid_text(m.session_id)
    &&& row.role@ == types::role_text(m.role)
    &&& row.content@ == m.content
    &&& row.token_count == m.token_count
    &&& row.created_at == m.created_at
    &&& row.metadata@ == "{}"@
    &&& m.metadata == json::empty_object()
}

/// Makes a message of a row, given what its texts are read as.
pub fn read_message(
    row: &MessageRow,
    id: Result<u128, String>,
    session_id: Result<u128, String>,
    metadata: Result<serde_json::Value, String>,
) -> (r: Result<Message, AppError>)
    ensures
        rows::outcome(r) == message_read(
            *row,
            id_outcome(id),
            id_outcome(session_id),
            json::value_outcome(metadata),
        ),
{
    let role = match Role::from_name(row.role.as_str()) {
        Some(role) => role,
        None => {
            let mut why = "unknown role: ".to_owned();
            why.append(row.role.as_str());
            return Err(AppError::Internal(why));
        },
    };
    let id = match id {
        Ok(id) => id,
        Err(e) => {
            return Err(AppError::Uuid(e));
        },
    };
    let session_id = match session_id {
        Ok(id) => id,
        Err(e) => {
            return Err(AppError::Uuid(e));
        },
    };
    match metadata {
        Ok(metadata) => Ok(
            Message {
                id,
                session_id,
                role,
                content: row.content.clone(),
                token_count: row.token_count,
                created_at: row.created_at,
                metadata,
            },
        ),
        Err(e) => Err(AppError::Json(e)),
    }
}

/// Makes a message of a row. A message is read back from the row that it is stored
/// as.
pub fn row_to_message(row: &MessageRow) -> (r: Result<Message, AppError>)
    ensures
        rows::outcome(r) == message_of(*row),
        forall|m: MessageView| #[trigger] is_row_of(*row, m) ==> rows::outcome(r) == Ok::<
            MessageView,
            ErrorView,
        >(m),
{
    let id = parse_uuid(row.id.as_str());
    let session_id = parse_uuid(row.session_id.as_str());
    let metadata = parse_json(row.metadata.as_str());
    proof {
        assert forall|m: MessageView| #[trigger] is_row_of(*row, m) implies message_read(
            *row,
            id_outcome(id),
            id_outcome(session_id),
            json::value_outcome(metadata),
        ) == Ok::<MessageView, ErrorView>(m) by {
            types::law_role_round_trip(m.role);
        }
    }
    read_message(row, id, session_id, metadata)
}

/// A new message of a session, and the row that it is stored as. The id is random.
pub fn insert(
    session_id: u128,
    role: Role,
    content: &str,
    token_count: i64,
    now: Timestamp,
) -> (r: (Message, MessageRow))
    ensures
        r.0@.session_id == session_id,
        r.0@.role == role,
        r.0@.content == content@,
        r.0@.token_count == token_count,
        r.0@.created_at == now,
        r.0@.metadata == json::empty_object(),
        is_row_of(r.1, r.0@),
{
    new_message(new_uuid(), session_id, role, content, token_count, now)
}

/// A message of a session with the id `id`, and the row that it is stored as.
pub fn new_message(
    id: u128,
    session_id: u128,
    role: Role,
    content: &str,
    token_count: i64,
    now: Timestamp,
) -> (r: (Message, MessageRow))
    ensures
        r.0@ == (MessageView {
            id,
            session_id,
            role,
            content: content@,
            token_count,
            created_at: now,
            metadata: json::empty_object(),
        }),
        is_row_of(r.1, r.0@),
{
    let fields: Vec<(String, serde_json::Value)> = Vec::new();
    assert(json::pair_views(fields@) =~= Seq::empty());
    let message = Message {
        id,
        session_id,
        role,
        content: content.to_owned(),
        token_count,
        created_at: now,
        metadata: json_object(fields),
    };
    let row = MessageRow {
        id: show_uuid(id),
        session_id: show_uuid(session_id),
        role: role.as_str().to_owned(),
        content: content.to_owned(),
        token_count,
        created_at: now,
        metadata: "{}".to_owned(),
    };
    (message, row)
}

impl Row for MessageRow {
    type Item = Message;

    open spec fn meaning(&self) -> Result<MessageView, ErrorView> {
        message_of(*self)
    }

    open spec fn stores(&self, item: MessageView) -> bool {
        is_row_of(*self, item)
    }

    fn read(&self) -> (r: Result<Message, AppError>) {
        row_to_message(self)
    }
}

/// Reads the rows of a session: the messages in order, or the error of the first row that
/// cannot be read. Stored messages are read back.
pub fn list_for_session(rows: &Vec<MessageRow>) -> (r: Result<Vec<Message>, AppError>)
    ensures
        rows::list_outcome(r) == rows::all_of(rows@),
        forall|items: Seq<MessageView>| #[trigger]
            rows::store_all(rows@, items) ==> rows::list_outcome(r) == Ok::<
                Seq<MessageView>,
                ErrorView,
            >(items),
{
    read_all(rows)
}

/// A row with the name of a role whose texts can be read is the message with this role,
/// under the ids and with the metadata that were read, and with the content, the number of
/// tokens and the time that the row holds.
pub proof fn law_message_row_is_read(
    row: MessageRow,
    id: u128,
    session_id: u128,
    metadata: Json,
)
    requires
        row.role@ == "system"@ || row.role@ == "user"@ || row.role@ == "assistant"@ || row.role@
            == "tool"@,
    ensures
        message_read(row, Ok(id), Ok(session_id), Ok(metadata)) matches Ok(m) && {
            &&& m.id == id
            &&& m.session_id == session_id
            &&& m.role == Role::System <==> row.role@ == "system"@
            &&& m.role == Role::User <==> row.role@ == "user"@
            &&& m.role == Role::Assistant <==> row.role@ == "assistant"@
            &&& m.role == Role::Tool <==> row.role@ == "tool"@
            &&& m.content == row.content@
            &&& m.token_count == row.token_count
            &&& m.created_at == row.created_at
            &&& m.metadata == metadata
        },
{
    types::law_role_names(row.role@);
}

/// A row that cannot be read is refused for the first of these that is wrong: its role, its
/// id, its session, its metadata. Nothing else is wrong with a row.
pub proof fn law_broken_message_row(
    row: MessageRow,
    id: Result<u128, Seq<char>>,
    session_id: Result<u128, Seq<char>>,
    metadata: Result<Json, Seq<char>>,
)
    ensures
        ({
            let r = message_read(row, id, session_id, metadata);
            let named = row.role@ == "system"@ || row.role@ == "user"@ || row.role@ == "assistant"@
                || row.role@ == "tool"@;
            &&& !named ==> r == Err::<MessageView, ErrorView>(
                ErrorView::Internal("unknown role: "@ + row.role@),
            )
            &&& named ==> (id matches Err(e) ==> r == Err::<MessageView, ErrorView>(
                ErrorView::Uuid(e),
            ))
            &&& named && id is Ok ==> (session_id matches Err(e) ==> r == Err::<
                MessageView,
                ErrorView,
            >(ErrorView::Uuid(e)))
            &&& named && id is Ok && session_id is Ok ==> (metadata matches Err(e) ==> r == Err::<
                MessageView,
                ErrorView,
            >(ErrorView::Json(e)))
            &&& r is Ok <==> named && id is Ok && session_id is Ok && metadata is Ok
        }),
{
    types::law_role_names(row.role@);
}

} // verus!
