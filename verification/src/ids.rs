//! Identifiers: UUIDs as their 128 bits, and the texts that stand for them.

use vstd::prelude::*;
use vstd::string::*;

verus! {

/// One hexadecimal digit, in lower case.
pub open spec fn hex_digit(d: int) -> char {
    if d < 10 {
        (48 + d) as char
    } else {
        (87 + d) as char
    }
}

/// The last `width` hexadecimal digits of `n`.
pub open spec fn hex_digits(n: nat, width: nat) -> Seq<char>
    decreases width,
{
    if width == 0 {
        Seq::empty()
    } else {
        hex_digits(n / 16, (width - 1) as nat).push(hex_digit((n % 16) as int))
    }
}

/// `uuid::Uuid::new_v4`, as its 128 bits. The bits are random: nothing is said
/// of them.
#[verifier::external_body]
pub(crate) fn new_uuid() -> (id: u128) {
    uuid::Uuid::new_v4().as_u128()
}

/// `uuid::Uuid::simple`, displayed: the 32 hexadecimal digits of the UUID, in
/// lower case and without hyphens.
#[verifier::external_body]
pub(crate) fn uuid_simple(id: u128) -> (out: String)
    ensures
        out@ == hex_digits(id as nat, 32),
{
    uuid::Uuid::from_u128(id).simple().to_string()
}

/// The text of a UUID: its hexadecimal digits in groups of 8, 4, 4, 4 and 12.
pub open spec fn uuid_text(id: u128) -> Seq<char> {
    let d = hex_digits(id as nat, 32);
    d.subrange(0, 8) + "-"@ + d.subrange(8, 12) + "-"@ + d.subrange(12, 16) + "-"@ + d.subrange(
        16,
        20,
    ) + "-"@ + d.subrange(20, 32)
}

/// What `uuid::Uuid::parse_str` makes of a text: the 128 bits, or the text of its
/// error.
pub uninterp spec fn uuid_parse(text: Seq<char>) -> Result<u128, Seq<char>>;

/// `uuid::Uuid`, displayed: lower-case hexadecimal digits with hyphens.
#[verifier::external_body]
pub(crate) fn show_uuid(id: u128) -> (out: String)
    ensures
        out@ == uuid_text(id),
{
    uuid::Uuid::from_u128(id).to_string()
}

/// `uuid::Uuid::parse_str`. It reads back the hyphenated text of a UUID; which
/// other texts it accepts, and what it says of the rest, is left to the name.
#[verifier::external_body]
pub(crate) fn parse_uuid(text: &str) -> (r: Result<u128, String>)
    ensures
        match r {
            Ok(id) => uuid_parse(text@) == Ok::<u128, Seq<char>>(id),
            Err(e) => uuid_parse(text@) == Err::<u128, Seq<char>>(e@),
        },
        forall|id: u128| text@ == #[trigger] uuid_text(id) ==> r is Ok && r->Ok_0 == id,
{
    uuid::Uuid::parse_str(text).map(|id| id.as_u128()).map_err(|e| e.to_string())
}

} // verus!
