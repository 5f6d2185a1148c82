//! Application-wide error type.
//!
//! An error that an outside library reports is held as its text. Every error has
//! a stable code, an HTTP status and a message; together they make the JSON body
//! of a failed request.

use vstd::prelude::*;
use vstd::string::*;

use crate::json;
use crate::json::{json_object, json_string, push_field, Json};

verus! {

#[derive(Debug, Clone)]
pub enum AppError {
    Config(String),
    Io(String),
    Database(String),
    Migrate(String),
    Http(String),
    HfHub(String),
    Uuid(String),
    Json(String),
    SessionNotFound,
    MemoryNotFound,
    ModelNotLoaded,
    BadRequest(String),
    ChecksumMismatch { expected: String, actual: String },
    Inference(String),
    Internal(String),
}

/// An error with its texts as characters.
pub enum ErrorView {
    Config(Seq<char>),
    Io(Seq<char>),
    Database(Seq<char>),
    Migrate(Seq<char>),
    Http(Seq<char>),
    HfHub(Seq<char>),
    Uuid(Seq<char>),
    Json(Seq<char>),
    SessionNotFound,
    MemoryNotFound,
    ModelNotLoaded,
    BadRequest(Seq<char>),
    ChecksumMismatch { expected: Seq<char>, actual: Seq<char> },
    Inference(Seq<char>),
    Internal(Seq<char>),
}

impl View for AppError {
    type V = ErrorView;

    open spec fn view(&self) -> ErrorView {
        match *self {
            AppError::Config(s) => ErrorView::Config(s@),
            AppError::Io(s) => ErrorView::Io(s@),
            AppError::Database(s) => ErrorView::Database(s@),
            AppError::Migrate(s) => ErrorView::Migrate(s@),
            AppError::Http(s) => ErrorView::Http(s@),
            AppError::HfHub(s) => ErrorView::HfHub(s@),
            AppError::Uuid(s) => ErrorView::Uuid(s@),
            AppError::Json(s) => ErrorView::Json(s@),
            AppError::SessionNotFound => ErrorView::SessionNotFound,
            AppError::MemoryNotFound => ErrorView::MemoryNotFound,
            AppError::ModelNotLoaded => ErrorView::ModelNotLoaded,
            AppError::BadRequest(s) => ErrorView::BadRequest(s@),
            AppError::ChecksumMismatch { expected, actual } => ErrorView::ChecksumMismatch {
                expected: expected@,
                actual: actual@,
            },
            AppError::Inference(s) => ErrorView::Inference(s@),
            AppError::Internal(s) => ErrorView::Internal(s@),
        }
    }
}

impl ErrorView {
    /// The stable code of an error.
    pub open spec fn code(self) -> Seq<char> {
        match self {
            ErrorView::Config(_) => "config_error"@,
            ErrorView::Io(_) => "io_error"@,
            ErrorView::Database(_) => "database_error"@,
            ErrorView::Migrate(_) => "database_error"@,
            ErrorView::Http(_) => "network_error"@,
            ErrorView::HfHub(_) => "network_error"@,
            ErrorView::Uuid(_) => "invalid_uuid"@,
            ErrorView::Json(_) => "json_error"@,
            ErrorView::SessionNotFound => "session_not_found"@,
            ErrorView::MemoryNotFound => "memory_not_found"@,
            ErrorView::ModelNotLoaded => "model_not_loaded"@,
            ErrorView::BadRequest(_) => "bad_request"@,
            ErrorView::ChecksumMismatch { expected: _, actual: _ } => "checksum_mismatch"@,
            ErrorView::Inference(_) => "inference_error"@,
            ErrorView::Internal(_) => "internal_error"@,
        }
    }

    /// The HTTP status of an error.
    pub open spec fn status(self) -> u16 {
        match self {
            ErrorView::SessionNotFound => 404,
            ErrorView::MemoryNotFound => 404,
            ErrorView::BadRequest(_) => 400,
            ErrorView::Uuid(_) => 400,
            ErrorView::ModelNotLoaded => 503,
            _ => 500,
        }
    }

    /// What an error says of itself.
    pub open spec fn message(self) -> Seq<char> {
        match self {
            ErrorView::Config(s) => "configuration error: "@ + s,
            ErrorView::Io(s) => "io error: "@ + s,
            ErrorView::Database(s) => "database error: "@ + s,
            ErrorView::Migrate(s) => "migration error: "@ + s,
            ErrorView::Http(s) => "http error: "@ + s,
            ErrorView::HfHub(s) => "hugging face error: "@ + s,
            ErrorView::Uuid(s) => "invalid uuid: "@ + s,
            ErrorView::Json(s) => "json error: "@ + s,
            ErrorView::SessionNotFound => "session not found"@,
            ErrorView::MemoryNotFound => "memory not found"@,
            ErrorView::ModelNotLoaded => "model not loaded"@,
            ErrorView::BadRequest(s) => "invalid request: "@ + s,
            ErrorView::ChecksumMismatch { expected, actual } => "checksum mismatch: expected "@
                + expected + ", got "@ + actual,
            ErrorView::Inference(s) => "inference error: "@ + s,
            ErrorView::Internal(s) => "internal error: "@ + s,
        }
    }

    /// The JSON body of a failed request.
    pub open spec fn body(self) -> Json {
        Json::Object(
            json::pairs_object(
                seq![
                    (
                        "error"@,
                        Json::Object(
                            json::pairs_object(
                                seq![
                                    ("code"@, Json::Text(self.code())),
                                    ("message"@, Json::Text(self.message())),
                                ],
                            ),
                        ),
                    ),
                ],
            ),
        )
    }
}

/// A text with a lead in front of it.
fn led(lead: &str, s: &str) -> (out: String)
    ensures
        out@ == lead@ + s@,
{
    let mut out = lead.to_owned();
    out.append(s);
    out
}

impl AppError {
    /// The stable code of the error.
    pub fn code(&self) -> (r: &'static str)
        ensures
            r@ == self@.code(),
    {
        match self {
            AppError::Config(_) => "config_error",
            AppError::Io(_) => "io_error",
            AppError::Database(_) => "database_error",
            AppError::Migrate(_) => "database_error",
            AppError::Http(_) => "network_error",
            AppError::HfHub(_) => "network_error",
            AppError::Uuid(_) => "invalid_uuid",
            AppError::Json(_) => "json_error",
            AppError::SessionNotFound => "session_not_found",
            AppError::MemoryNotFound => "memory_not_found",
            AppError::ModelNotLoaded => "model_not_loaded",
            AppError::BadRequest(_) => "bad_request",
            AppError::ChecksumMismatch { .. } => "checksum_mismatch",
            AppError::Inference(_) => "inference_error",
            AppError::Internal(_) => "internal_error",
        }
    }

    /// The HTTP status that answers the error.
    pub fn status(&self) -> (r: u16)
        ensures
            r == self@.status(),
    {
        match self {
            AppError::SessionNotFound => 404,
            AppError::MemoryNotFound => 404,
            AppError::BadRequest(_) => 400,
            AppError::Uuid(_) => 400,
            AppError::ModelNotLoaded => 503,
            _ => 500,
        }
    }

    /// What the error says of itself.
    pub fn message(&self) -> (out: String)
        ensures
            out@ == self@.message(),
    {
        match self {
            AppError::Config(s) => led("configuration error: ", s.as_str()),
            AppError::Io(s) => led("io error: ", s.as_str()),
            AppError::Database(s) => led("database error: ", s.as_str()),
            AppError::Migrate(s) => led("migration error: ", s.as_str()),
            AppError::Http(s) => led("http error: ", s.as_str()),
            AppError::HfHub(s) => led("hugging face error: ", s.as_str()),
            AppError::Uuid(s) => led("invalid uuid: ", s.as_str()),
            AppError::Json(s) => led("json error: ", s.as_str()),
            AppError::SessionNotFound => "session not found".to_owned(),
            AppError::MemoryNotFound => "memory not found".to_owned(),
            AppError::ModelNotLoaded => "model not loaded".to_owned(),
            AppError::BadRequest(s) => led("invalid request: ", s.as_str()),
            AppError::ChecksumMismatch { expected, actual } => {
                let mut out = led("checksum mismatch: expected ", expected.as_str());
                out.append(", got ");
                out.append(actual.as_str());
                out
            },
            AppError::Inference(s) => led("inference error: ", s.as_str()),
            AppError::Internal(s) => led("internal error: ", s.as_str()),
        }
    }

    /// The JSON body of the failed request: the code and the message under
    /// `error`.
    pub fn body(&self) -> (v: serde_json::Value)
        ensures
            json::json_view(v) == self@.body(),
    {
        let mut inner: Vec<(String, serde_json::Value)> = Vec::new();
        let mut outer: Vec<(String, serde_json::Value)> = Vec::new();
        assert(json::pair_views(inner@) =~= Seq::empty());
        assert(json::pair_views(outer@) =~= Seq::empty());
        push_field(&mut inner, "code", json_string(self.code()));
        push_field(&mut inner, "message", json_string(self.message().as_str()));
        assert(json::pair_views(inner@) =~= seq![
            ("code"@, Json::Text(self@.code())),
            ("message"@, Json::Text(self@.message())),
        ]);
        proof {
            reveal_strlit("code");
            reveal_strlit("message");
            assert("code"@.len() != "message"@.len());
        }
        push_field(&mut outer, "error", json_object(inner));
        assert(json::pair_views(outer@).len() == 1);
        assert(json::pair_views(outer@) =~= seq![json::pair_views(outer@)[0]]);
        json_object(outer)
    }
}

/// The body of a failed request holds, under `error`, the code and the message, and
/// nothing else.
pub proof fn law_error_body(e: ErrorView)
    ensures
        e.body() matches Json::Object(outer) && outer.dom() == set!["error"@] && (
        outer["error"@] matches Json::Object(inner) && {
            &&& inner.dom() == set!["code"@, "message"@]
            &&& inner["code"@] == Json::Text(e.code())
            &&& inner["message"@] == Json::Text(e.message())
        }),
{
    reveal_strlit("code");
    reveal_strlit("message");
    assert("code"@.len() != "message"@.len());
    reveal_with_fuel(json::pairs_object, 3);
    let fields = seq![
        ("code"@, Json::Text(e.code())),
        ("message"@, Json::Text(e.message())),
    ];
    let inner = json::pairs_object(fields);
    assert(fields.drop_last() =~= seq![("code"@, Json::Text(e.code()))]);
    assert(fields.drop_last().drop_last() =~= Seq::<(Seq<char>, Json)>::empty());
    assert(inner.dom() =~= set!["code"@, "message"@]);
    let outer_fields = seq![("error"@, Json::Object(inner))];
    assert(outer_fields.drop_last() =~= Seq::<(Seq<char>, Json)>::empty());
    assert(json::pairs_object(outer_fields).dom() =~= set!["error"@]);
}

/// A request that asks for something that is not there, or asks for it wrongly, is
/// the client's fault; every other failure is the server's.
pub proof fn law_client_or_server(e: ErrorView)
    ensures
        e.status() == 400 || e.status() == 404 <==> e is SessionNotFound || e is MemoryNotFound
            || e is BadRequest || e is Uuid,
        e.status() == 400 || e.status() == 404 || e.status() == 500 || e.status() == 503,
{
}

/// The errors that carry the text of a cause.
pub open spec fn caused_by(n: int, s: Seq<char>) -> ErrorView {
    if n == 0 {
        ErrorView::Config(s)
    } else if n == 1 {
        ErrorView::Io(s)
    } else if n == 2 {
        ErrorView::Database(s)
    } else if n == 3 {
        ErrorView::Migrate(s)
    } else if n == 4 {
        ErrorView::Http(s)
    } else if n == 5 {
        ErrorView::HfHub(s)
    } else if n == 6 {
        ErrorView::Uuid(s)
    } else if n == 7 {
        ErrorView::Json(s)
    } else if n == 8 {
        ErrorView::BadRequest(s)
    } else if n == 9 {
        ErrorView::Inference(s)
    } else {
        ErrorView::Internal(s)
    }
}

/// An error says what caused it, whatever the cause says: two errors of a kind have the same
/// lead, code and status and differ in the cause alone.
pub proof fn law_message_tells_the_cause(n: int, s: Seq<char>, t: Seq<char>)
    ensures
        ({
            let a = caused_by(n, s);
            let b = caused_by(n, t);
            &&& s.is_suffix_of(a.message())
            &&& a.message().len() > s.len() + 2
            &&& a.message().take(a.message().len() - s.len()) == b.message().take(
                b.message().len() - t.len(),
            )
            &&& ": "@.is_suffix_of(a.message().take(a.message().len() - s.len()))
            &&& a.code() == b.code()
            &&& a.status() == b.status()
        }),
{
    reveal_strlit(": ");
    reveal_strlit("configuration error: ");
    reveal_strlit("io error: ");
    reveal_strlit("database error: ");
    reveal_strlit("migration error: ");
    reveal_strlit("http error: ");
    reveal_strlit("hugging face error: ");
    reveal_strlit("invalid uuid: ");
    reveal_strlit("json error: ");
    reveal_strlit("invalid request: ");
    reveal_strlit("inference error: ");
    reveal_strlit("internal error: ");
    let a = caused_by(n, s).message();
    let b = caused_by(n, t).message();
    assert(a.take(a.len() - s.len()) =~= b.take(b.len() - t.len()));
    assert(s =~= a.subrange(a.len() - s.len(), a.len() as int));
    let lead = a.take(a.len() - s.len());
    assert(": "@ =~= lead.subrange(lead.len() - 2, lead.len() as int));
}

/// A checksum that does not match is told with what was expected first and what came second.
pub proof fn law_mismatch_tells_both(expected: Seq<char>, actual: Seq<char>)
    ensures
        ({
            let m = (ErrorView::ChecksumMismatch { expected, actual }).message();
            let lead = "checksum mismatch: expected "@ + expected;
            &&& lead.is_prefix_of(m)
            &&& m.skip(lead.len() as int) == ", got "@ + actual
        }),
{
    let m = (ErrorView::ChecksumMismatch { expected, actual }).message();
    let lead = "checksum mismatch: expected "@ + expected;
    assert(m =~= lead + (", got "@ + actual));
    assert(m.skip(lead.len() as int) =~= ", got "@ + actual);
}

} // verus!
