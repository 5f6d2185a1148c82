//! GGUF model downloader.
//!
//! What is requested from Hugging Face, whether an interrupted download is resumed,
//! and whether the file that arrived is the right one.

use vstd::prelude::*;
use vstd::string::*;

use crate::error::{AppError, ErrorView};
use crate::ids;
use crate::text;
use crate::text::{chars_of, decimal_of, same_ignoring_ascii_case, same_text};

use sha2::Digest;

verus! {

/// A model file on disk, ready for loading.
#[derive(Debug, Clone)]
pub struct ResolvedModel {
    pub path: String,
    pub size_bytes: u64,
}

// ---------------------------------------------------------------------------
// What to request
// ---------------------------------------------------------------------------

/// Where a file of a repo is downloaded from.
pub open spec fn url_text(repo: Seq<char>, filename: Seq<char>) -> Seq<char> {
    "https://huggingface.co/"@ + repo + "/resolve/main/"@ + filename
}

/// Where a file of a repo is downloaded from.
pub fn model_url(repo: &str, filename: &str) -> (out: String)
    ensures
        out@ == url_text(repo@, filename@),
{
    let mut out = "https://huggingface.co/".to_owned();
    out.append(repo);
    out.append("/resolve/main/");
    out.append(filename);
    out
}

/// A decimal digit.
pub open spec fn is_digit(c: char) -> bool {
    '0' <= c && c <= '9'
}

/// The number that decimal digits stand for.
pub open spec fn digits_value(d: Seq<char>) -> nat
    decreases d.len(),
{
    if d.len() == 0 {
        0
    } else {
        digits_value(d.drop_last()) * 10 + (d.last() as nat - 48) as nat
    }
}

/// A text without the plus sign that it may start with.
pub open spec fn without_plus(s: Seq<char>) -> Seq<char> {
    if s.len() > 0 && s[0] == '+' {
        s.skip(1)
    } else {
        s
    }
}

/// The number that a text is the numeral of: decimal digits, with a plus sign before
/// them or none, for a number that 64 bits can hold.
pub open spec fn numeral_value(s: Seq<char>) -> Option<nat> {
    let d = without_plus(s);
    if d.len() > 0 && (forall|i: int| 0 <= i < d.len() ==> is_digit(#[trigger] d[i]))
        && digits_value(d) <= u64::MAX {
        Some(digits_value(d))
    } else {
        None
    }
}

/// Reads a numeral.
pub fn parse_numeral(s: &str) -> (r: Option<u64>)
    ensures
        match r {
            Some(n) => numeral_value(s@) == Some(n as nat),
            None => numeral_value(s@) is None,
        },
{
    let v = chars_of(s);
    let start: usize = if v.len() > 0 && v[0] == '+' {
        1
    } else {
        0
    };
    let ghost d = without_plus(s@);
    assert(v@.skip(start as int) =~= d);
    if start == v.len() {
        return None;
    }
    let mut value: u64 = 0;
    let mut over = false;
    let mut i: usize = start;
    assert(d.take(0) =~= Seq::<char>::empty());
    while i < v.len()
        invariant
            start <= i <= v@.len(),
            v@ == s@,
            d == without_plus(s@),
            v@.skip(start as int) == d,
            d.len() > 0,
            forall|k: int| 0 <= k < i - start ==> is_digit(#[trigger] d[k]),
            over ==> digits_value(d.take(i - start)) > u64::MAX,
            !over ==> value == digits_value(d.take(i - start)),
        decreases v@.len() - i,
    {
        let c = v[i];
        let ghost k = i - start;
        assert(d[k] == c);
        if !('0' <= c && c <= '9') {
            return None;
        }
        proof {
            assert(d.take(k + 1).drop_last() =~= d.take(k));
            assert(d.take(k + 1).last() == c);
        }
        let digit: u64 = (c as u32 - 48) as u64;
        if !over {
            let grown: u128 = value as u128 * 10 + digit as u128;
            if grown > u64::MAX as u128 {
                over = true;
            } else {
                value = grown as u64;
            }
        }
        i = i + 1;
    }
    assert(d.take(d.len() as int) =~= d);
    if over {
        None
    } else {
        Some(value)
    }
}

/// The size that the server states for a file. Without one there is no download.
pub fn content_length(header: Option<&str>) -> (r: Result<u64, AppError>)
    ensures
        match r {
            Ok(n) => header matches Some(h) && numeral_value(h@) == Some(n as nat),
            Err(e) => e@ == ErrorView::Internal("missing Content-Length header"@) && (
            header matches Some(h) ==> numeral_value(h@) is None),
        },
{
    if let Some(h) = header {
        if let Some(n) = parse_numeral(h) {
            return Ok(n);
        }
    }
    Err(AppError::Internal("missing Content-Length header".to_owned()))
}

/// How a file is brought to the state of the server.
#[derive(Debug, Clone, Copy, PartialEq, Eq, Structural)]
pub enum DownloadPlan {
    /// The local file is complete.
    UpToDate,
    /// The local file is the beginning: only the rest is requested.
    Resume { from: u64 },
    /// The local file is too large: it is removed and everything requested.
    Restart,
    /// There is nothing yet: everything is requested.
    Start,
}

/// How a local file of `local` bytes (`0` where there is none) is brought to the
/// `remote` bytes of the server.
pub open spec fn plan_of(local: u64, remote: u64) -> DownloadPlan {
    if local == remote {
        DownloadPlan::UpToDate
    } else if local > remote {
        DownloadPlan::Restart
    } else if local > 0 {
        DownloadPlan::Resume { from: local }
    } else {
        DownloadPlan::Start
    }
}

/// Decides how a local file is brought to the state of the server.
pub fn plan_download(local: u64, remote: u64) -> (plan: DownloadPlan)
    ensures
        plan == plan_of(local, remote),
{
    if local == remote {
        DownloadPlan::UpToDate
    } else if local > 0 && local < remote {
        DownloadPlan::Resume { from: local }
    } else if local > remote {
        DownloadPlan::Restart
    } else {
        DownloadPlan::Start
    }
}

impl DownloadPlan {
    /// The range that is requested: the part from the local size on, where a download
    /// is resumed.
    pub fn range(&self) -> (r: Option<String>)
        ensures
            match r {
                Some(range) => *self matches DownloadPlan::Resume { from } && range@ == "bytes="@
                    + text::decimal(from as nat) + "-"@,
                None => self !is Resume,
            },
    {
        match self {
            DownloadPlan::Resume { from } => {
                let mut range = "bytes=".to_owned();
                range.append(decimal_of(*from).as_str());
                range.append("-");
                Some(range)
            },
            _ => None,
        }
    }

    /// Tells whether the local file is removed first.
    pub fn removes_local(&self) -> (r: bool)
        ensures
            r == (self is Restart),
    {
        match self {
            DownloadPlan::Restart => true,
            _ => false,
        }
    }
}

/// How the answer of the server is written.
#[derive(Debug, Clone, Copy, PartialEq, Eq, Structural)]
pub struct Writing {
    /// What comes is put behind the local file; else the file is emptied first.
    pub append: bool,
    /// Bytes of the file before the first one comes.
    pub starting_at: u64,
}

/// How the answer is written.
pub open spec fn writing_of(local: u64, partial: bool) -> Writing {
    Writing {
        append: partial,
        starting_at: if partial {
            local
        } else {
            0
        },
    }
}

/// Decides how the answer is written. The server says whether it sends a part only
/// (`partial`); a server that ignores the range sends everything.
pub fn plan_writing(local: u64, partial: bool) -> (w: Writing)
    ensures
        w == writing_of(local, partial),
{
    Writing {
        append: partial,
        starting_at: if partial {
            local
        } else {
            0
        },
    }
}

/// What a server sends when asked for a file of `remote` bytes: what lies from the
/// start of the range on where it honors the range, and else everything.
pub open spec fn bytes_sent(plan: DownloadPlan, remote: u64, partial: bool) -> int {
    match plan {
        DownloadPlan::Resume { from } => if partial {
            remote - from
        } else {
            remote as int
        },
        DownloadPlan::UpToDate => 0,
        _ => remote as int,
    }
}

/// A finished download has the size of the file on the server. A resumed one reads
/// only what is missing; a server that ignores the range does no harm.
pub proof fn law_download_completes(local: u64, remote: u64, partial: bool)
    requires
        local != remote,
        partial ==> plan_of(local, remote) is Resume,
    ensures
        writing_of(local, partial).starting_at + bytes_sent(
            plan_of(local, remote),
            remote,
            partial,
        ) == remote,
        partial ==> bytes_sent(plan_of(local, remote), remote, partial) < remote,
{
}

/// The file after the pieces of an answer were written to it, one behind the other: behind
/// what was there, or in its place.
pub open spec fn written(before: Seq<u8>, w: Writing, pieces: Seq<Seq<u8>>) -> Seq<u8> {
    if w.append {
        before + joined(pieces)
    } else {
        joined(pieces)
    }
}

/// What a server that holds the file `remote` answers with: what lies from the start of
/// the range on where it honors the range, and else everything.
pub open spec fn body_sent(plan: DownloadPlan, remote: Seq<u8>, partial: bool) -> Seq<u8> {
    match plan {
        DownloadPlan::Resume { from } => if partial {
            remote.skip(from as int)
        } else {
            remote
        },
        _ => remote,
    }
}

/// A finished download is the file on the server, byte for byte and in whatever pieces it
/// came, where what was there before was the beginning of it or is not kept. A part is
/// sent only where a range was asked for.
pub proof fn law_download_is_the_file(
    before: Seq<u8>,
    remote: Seq<u8>,
    partial: bool,
    pieces: Seq<Seq<u8>>,
)
    requires
        before.len() <= u64::MAX,
        remote.len() <= u64::MAX,
        before.len() != remote.len(),
        partial ==> plan_of(before.len() as u64, remote.len() as u64) is Resume,
        partial ==> before == remote.take(before.len() as int),
        joined(pieces) == body_sent(
            plan_of(before.len() as u64, remote.len() as u64),
            remote,
            partial,
        ),
    ensures
        written(before, writing_of(before.len() as u64, partial), pieces) == remote,
{
    if partial {
        assert(remote.take(before.len() as int) + remote.skip(before.len() as int) =~= remote);
    }
}

// ---------------------------------------------------------------------------
// Checking what arrived
// ---------------------------------------------------------------------------

/// A SHA-256 hasher that is fed piece by piece.
#[verifier::external_body]
pub struct Checksum {
    inner: sha2::Sha256,
}

/// What a hasher was fed so far.
pub uninterp spec fn hashed(c: Checksum) -> Seq<u8>;

/// The SHA-256 digest of bytes.
pub uninterp spec fn sha256(bytes: Seq<u8>) -> Seq<u8>;

/// The most bytes that a digest is taken of: the length in bits has to fit into 64
/// bits.
pub const MAX_HASHED: u64 = 0x1fff_ffff_ffff_ffff;

/// `sha2::Sha256::new`: a hasher that was fed nothing.
#[verifier::external_body]
fn new_checksum() -> (c: Checksum)
    ensures
        hashed(c) == Seq::<u8>::empty(),
{
    Checksum { inner: sha2::Sha256::new() }
}

/// `sha2::Sha256::update`: the bytes come behind those that were fed before.
#[verifier::external_body]
fn update_checksum(c: &mut Checksum, bytes: &[u8])
    requires
        hashed(*old(c)).len() + bytes@.len() <= MAX_HASHED,
    ensures
        hashed(*final(c)) == hashed(*old(c)) + bytes@,
{
    c.inner.update(bytes);
}

/// `sha2::Sha256::finalize`: the digest of all that was fed, 32 bytes. Which bytes
/// they are is left to the name.
#[verifier::external_body]
fn finish_checksum(c: Checksum) -> (digest: Vec<u8>)
    requires
        hashed(c).len() <= MAX_HASHED,
    ensures
        digest@ == sha256(hashed(c)),
        digest@.len() == 32,
{
    c.inner.finalize().to_vec()
}

/// Bytes in hexadecimal: two digits for each, in lower case.
pub open spec fn hex_text(bytes: Seq<u8>) -> Seq<char>
    decreases bytes.len(),
{
    if bytes.len() == 0 {
        Seq::empty()
    } else {
        hex_text(bytes.drop_last()).push(ids::hex_digit(bytes.last() as int / 16)).push(
            ids::hex_digit(bytes.last() as int % 16),
        )
    }
}

/// `hex::encode`: two lower-case hexadecimal digits for each byte.
#[verifier::external_body]
fn encode_hex(bytes: &Vec<u8>) -> (out: String)
    requires
        2 * bytes@.len() <= isize::MAX,
    ensures
        out@ == hex_text(bytes@),
{
    hex::encode(bytes)
}

/// Compares a digest with what was expected, in hexadecimal of either case.
pub fn check_digest(digest: &Vec<u8>, expected_hex: &str) -> (r: Result<(), AppError>)
    requires
        2 * digest@.len() <= isize::MAX,
    ensures
        match r {
            Ok(_) => text::ascii_lower_text(hex_text(digest@)) == text::ascii_lower_text(
                expected_hex@,
            ),
            Err(e) => text::ascii_lower_text(hex_text(digest@)) != text::ascii_lower_text(
                expected_hex@,
            ) && e@ == (ErrorView::ChecksumMismatch {
                expected: expected_hex@,
                actual: hex_text(digest@),
            }),
        },
{
    let actual = encode_hex(digest);
    if !same_ignoring_ascii_case(actual.as_str(), expected_hex) {
        return Err(AppError::ChecksumMismatch { expected: expected_hex.to_owned(), actual });
    }
    Ok(())
}

/// A file that is being checked, piece by piece.
pub struct Verification {
    sum: Checksum,
    fed: u64,
}

impl View for Verification {
    type V = Seq<u8>;

    closed spec fn view(&self) -> Seq<u8> {
        hashed(self.sum)
    }
}

impl Verification {
    /// The bytes are counted, and not too many.
    pub closed spec fn wf(self) -> bool {
        self.fed == self@.len() && self.fed <= MAX_HASHED
    }

    pub fn start() -> (v: Verification)
        ensures
            v.wf(),
            v@.len() == 0,
    {
        Verification { sum: new_checksum(), fed: 0 }
    }

    /// How many more bytes can be taken in.
    pub fn room(&self) -> (n: u64)
        requires
            self.wf(),
        ensures
            n == MAX_HASHED - self@.len(),
    {
        MAX_HASHED - self.fed
    }

    /// Takes in the next piece of the file.
    pub fn feed(&mut self, bytes: &[u8])
        requires
            old(self).wf(),
            old(self)@.len() + bytes@.len() <= MAX_HASHED,
        ensures
            final(self).wf(),
            final(self)@ == old(self)@ + bytes@,
    {
        update_checksum(&mut self.sum, bytes);
        self.fed = self.fed + bytes.len() as u64;
    }

    /// Compares the digest of the file with what was expected.
    pub fn finish(self, expected_hex: &str) -> (r: Result<(), AppError>)
        requires
            self.wf(),
        ensures
            match r {
                Ok(_) => text::ascii_lower_text(hex_text(sha256(self@)))
                    == text::ascii_lower_text(expected_hex@),
                Err(e) => text::ascii_lower_text(hex_text(sha256(self@)))
                    != text::ascii_lower_text(expected_hex@) && e@
                    == (ErrorView::ChecksumMismatch {
                    expected: expected_hex@,
                    actual: hex_text(sha256(self@)),
                }),
            },
    {
        let digest = finish_checksum(self.sum);
        check_digest(&digest, expected_hex)
    }
}

/// Pieces one after the other.
pub open spec fn joined(pieces: Seq<Seq<u8>>) -> Seq<u8>
    decreases pieces.len(),
{
    if pieces.len() == 0 {
        Seq::empty()
    } else {
        joined(pieces.drop_last()) + pieces.last()
    }
}

/// What was fed, after pieces.
pub open spec fn fed_all(bytes: Seq<u8>, pieces: Seq<Seq<u8>>) -> Seq<u8>
    decreases pieces.len(),
{
    if pieces.len() == 0 {
        bytes
    } else {
        fed_all(bytes + pieces.first(), pieces.drop_first())
    }
}

/// How a file is cut into pieces makes no difference to its digest: what counts is
/// the pieces put together.
pub proof fn law_pieces_do_not_matter(pieces: Seq<Seq<u8>>, others: Seq<Seq<u8>>)
    requires
        joined(pieces) == joined(others),
    ensures
        sha256(fed_all(Seq::empty(), pieces)) == sha256(fed_all(Seq::empty(), others)),
{
    lemma_fed_all(Seq::empty(), pieces);
    lemma_fed_all(Seq::empty(), others);
}

proof fn lemma_fed_all(bytes: Seq<u8>, pieces: Seq<Seq<u8>>)
    ensures
        fed_all(bytes, pieces) == bytes + joined(pieces),
    decreases pieces.len(),
{
    if pieces.len() == 0 {
        assert(bytes + joined(pieces) =~= bytes);
    } else {
        lemma_fed_all(bytes + pieces.first(), pieces.drop_first());
        lemma_joined_first(pieces);
        assert((bytes + pieces.first()) + joined(pieces.drop_first()) =~= bytes + (pieces.first()
            + joined(pieces.drop_first())));
    }
}

proof fn lemma_joined_first(pieces: Seq<Seq<u8>>)
    requires
        pieces.len() > 0,
    ensures
        joined(pieces) == pieces.first() + joined(pieces.drop_first()),
    decreases pieces.len(),
{
    if pieces.len() == 1 {
        assert(pieces.drop_last() =~= Seq::<Seq<u8>>::empty());
        assert(pieces.drop_first() =~= Seq::<Seq<u8>>::empty());
        assert(joined(pieces) =~= pieces.first() + joined(pieces.drop_first()));
    } else {
        let front = pieces.drop_last();
        lemma_joined_first(front);
        assert(front.drop_first() =~= pieces.drop_first().drop_last());
        assert(joined(pieces) =~= pieces.first() + joined(pieces.drop_first()));
    }
}

// ---------------------------------------------------------------------------
// Bringing a file to the disk
// ---------------------------------------------------------------------------

/// Tells whether a file is checked: an empty digest skips the check.
pub fn wants_digest(expected_hex: &str) -> (r: bool)
    ensures
        r == (expected_hex@.len() > 0),
{
    let chars = chars_of(expected_hex);
    chars.len() > 0
}

/// How far a file has been brought: what is waited for.
#[derive(Debug, Clone, Copy, PartialEq, Eq, Structural)]
pub enum FetchStage {
    /// The size that the server states.
    Asking,
    /// The size of the local file.
    Looking { remote: u64 },
    /// The download.
    Fetching,
    /// The check of the digest.
    Checking,
    /// The size of the file that is on disk now.
    Measuring,
    /// Nothing: the outcome is known.
    Over,
}

/// A file that is being brought to the disk.
#[derive(Debug, Clone)]
pub struct Fetch {
    pub url: String,
    pub target: String,
    pub expected_hex: String,
    pub stage: FetchStage,
}

/// What a fetch is told.
#[derive(Debug)]
pub enum FetchEvent {
    /// The length header that the server answered with, where it did.
    Asked(Result<Option<String>, AppError>),
    /// The size of the local file, where there is one.
    Looked(Result<Option<u64>, AppError>),
    /// What came of the download.
    Fetched(Result<(), AppError>),
    /// What came of the check.
    Checked(Result<(), AppError>),
    /// The size of the file on disk.
    Measured(Result<u64, AppError>),
}

/// What a fetch asks for.
#[derive(Debug)]
pub enum FetchAction {
    /// Ask the server for the size of a file.
    Ask { url: String },
    /// Look up the size of the local file.
    Look { path: String },
    /// Download a file, or the rest of it.
    Download { url: String, path: String, plan: DownloadPlan, local: u64, remote: u64 },
    /// Compare the digest of the local file.
    Check { path: String, expected_hex: String },
    /// Take the size of the local file.
    Measure { path: String },
    /// The outcome.
    Finish(Result<ResolvedModel, AppError>),
    /// Nothing.
    Wait,
}

/// A fetch with its texts as characters.
pub struct FetchView {
    pub url: Seq<char>,
    pub target: Seq<char>,
    pub expected_hex: Seq<char>,
    pub stage: FetchStage,
}

impl View for Fetch {
    type V = FetchView;

    open spec fn view(&self) -> FetchView {
        FetchView {
            url: self.url@,
            target: self.target@,
            expected_hex: self.expected_hex@,
            stage: self.stage,
        }
    }
}

/// An action with its texts as characters. A file on disk is a path and a size.
pub enum FetchActionView {
    Ask { url: Seq<char> },
    Look { path: Seq<char> },
    Download { url: Seq<char>, path: Seq<char>, plan: DownloadPlan, local: u64, remote: u64 },
    Check { path: Seq<char>, expected_hex: Seq<char> },
    Measure { path: Seq<char> },
    Finish(Result<(Seq<char>, u64), ErrorView>),
    Wait,
}

impl View for FetchAction {
    type V = FetchActionView;

    open spec fn view(&self) -> FetchActionView {
        match *self {
            FetchAction::Ask { url } => FetchActionView::Ask { url: url@ },
            FetchAction::Look { path } => FetchActionView::Look { path: path@ },
            FetchAction::Download { url, path, plan, local, remote } => FetchActionView::Download {
                url: url@,
                path: path@,
                plan,
                local,
                remote,
            },
            FetchAction::Check { path, expected_hex } => FetchActionView::Check {
                path: path@,
                expected_hex: expected_hex@,
            },
            FetchAction::Measure { path } => FetchActionView::Measure { path: path@ },
            FetchAction::Finish(Ok(m)) => FetchActionView::Finish(Ok((m.path@, m.size_bytes))),
            FetchAction::Finish(Err(e)) => FetchActionView::Finish(Err(e@)),
            FetchAction::Wait => FetchActionView::Wait,
        }
    }
}

/// The size that a header states.
pub open spec fn stated_size(header: Option<String>) -> Option<nat> {
    match header {
        Some(h) => numeral_value(h@),
        None => None,
    }
}

/// A fetch that ends with an error.
pub open spec fn fetch_failed(f: FetchView, e: ErrorView) -> (FetchView, FetchActionView) {
    (FetchView { stage: FetchStage::Over, ..f }, FetchActionView::Finish(Err(e)))
}

/// A fetch whose file is on disk: it is checked where a digest is expected, and measured.
pub open spec fn fetch_settled(f: FetchView) -> (FetchView, FetchActionView) {
    if f.expected_hex.len() > 0 {
        (
            FetchView { stage: FetchStage::Checking, ..f },
            FetchActionView::Check { path: f.target, expected_hex: f.expected_hex },
        )
    } else {
        fetch_checked(f)
    }
}

/// A fetch whose file needs no more than to be measured.
pub open spec fn fetch_checked(f: FetchView) -> (FetchView, FetchActionView) {
    (
        FetchView { stage: FetchStage::Measuring, ..f },
        FetchActionView::Measure { path: f.target },
    )
}

/// The fetch after one more event, and what it asks for. What fails ends it; an event
/// that it does not wait for is passed over.
pub open spec fn fetch_step(f: FetchView, event: FetchEvent) -> (FetchView, FetchActionView) {
    match (f.stage, event) {
        (FetchStage::Asking, FetchEvent::Asked(Ok(header))) => match stated_size(header) {
            Some(n) => (
                FetchView { stage: FetchStage::Looking { remote: n as u64 }, ..f },
                FetchActionView::Look { path: f.target },
            ),
            None => fetch_failed(f, ErrorView::Internal("missing Content-Length header"@)),
        },
        (FetchStage::Asking, FetchEvent::Asked(Err(e))) => fetch_failed(f, e@),
        (FetchStage::Looking { remote }, FetchEvent::Looked(Ok(found))) => {
            let local = match found {
                Some(n) => n,
                None => 0,
            };
            if local == remote {
                fetch_settled(f)
            } else {
                (
                    FetchView { stage: FetchStage::Fetching, ..f },
                    FetchActionView::Download {
                        url: f.url,
                        path: f.target,
                        plan: plan_of(local, remote),
                        local,
                        remote,
                    },
                )
            }
        },
        (FetchStage::Looking { remote }, FetchEvent::Looked(Err(e))) => fetch_failed(f, e@),
        (FetchStage::Fetching, FetchEvent::Fetched(Ok(_))) => fetch_settled(f),
        (FetchStage::Fetching, FetchEvent::Fetched(Err(e))) => fetch_failed(f, e@),
        (FetchStage::Checking, FetchEvent::Checked(Ok(_))) => fetch_checked(f),
        (FetchStage::Checking, FetchEvent::Checked(Err(e))) => fetch_failed(f, e@),
        (FetchStage::Measuring, FetchEvent::Measured(Ok(n))) => (
            FetchView { stage: FetchStage::Over, ..f },
            FetchActionView::Finish(Ok((f.target, n))),
        ),
        (FetchStage::Measuring, FetchEvent::Measured(Err(e))) => fetch_failed(f, e@),
        _ => (f, FetchActionView::Wait),
    }
}

/// A fetch before its first event.
pub open spec fn fetch_start(
    repo: Seq<char>,
    filename: Seq<char>,
    target: Seq<char>,
    expected_hex: Seq<char>,
) -> FetchView {
    FetchView {
        url: url_text(repo, filename),
        target,
        expected_hex,
        stage: FetchStage::Asking,
    }
}

/// Makes sure that a GGUF file of a repo is on disk as `target`, downloading and resuming
/// as needed: the fetch, and its first action. An empty digest skips the check; else the
/// file is checked after every download, and where it was there already.
pub fn ensure_model_present(
    repo: &str,
    filename: &str,
    target: &str,
    expected_sha256: &str,
) -> (r: (Fetch, FetchAction))
    ensures
        r.0@ == fetch_start(repo@, filename@, target@, expected_sha256@),
        r.1@ == (FetchActionView::Ask { url: url_text(repo@, filename@) }),
{
    let url = model_url(repo, filename);
    let fetch = Fetch {
        url: url.clone(),
        target: target.to_owned(),
        expected_hex: expected_sha256.to_owned(),
        stage: FetchStage::Asking,
    };
    (fetch, FetchAction::Ask { url })
}

impl Fetch {
    /// Ends with an error.
    fn failed(self, e: AppError) -> (r: (Fetch, FetchAction))
        ensures
            (r.0@, r.1@) == fetch_failed(self@, e@),
    {
        let mut next = self;
        next.stage = FetchStage::Over;
        (next, FetchAction::Finish(Err(e)))
    }

    /// Goes on to measure the file.
    fn checked(self) -> (r: (Fetch, FetchAction))
        ensures
            (r.0@, r.1@) == fetch_checked(self@),
    {
        let mut next = self;
        next.stage = FetchStage::Measuring;
        let action = FetchAction::Measure { path: next.target.clone() };
        (next, action)
    }

    /// Goes on to check the file, or to measure it.
    fn settled(self) -> (r: (Fetch, FetchAction))
        ensures
            (r.0@, r.1@) == fetch_settled(self@),
    {
        if wants_digest(self.expected_hex.as_str()) {
            let mut next = self;
            next.stage = FetchStage::Checking;
            let action = FetchAction::Check {
                path: next.target.clone(),
                expected_hex: next.expected_hex.clone(),
            };
            (next, action)
        } else {
            self.checked()
        }
    }

    /// Takes in an event, and says what has to be done.
    pub fn next(self, event: FetchEvent) -> (r: (Fetch, FetchAction))
        ensures
            (r.0@, r.1@) == fetch_step(self@, event),
    {
        match (self.stage, event) {
            (FetchStage::Asking, FetchEvent::Asked(Ok(header))) => {
                let size = match &header {
                    Some(h) => content_length(Some(h.as_str())),
                    None => content_length(None),
                };
                match size {
                    Ok(remote) => {
                        let mut next = self;
                        next.stage = FetchStage::Looking { remote };
                        let action = FetchAction::Look { path: next.target.clone() };
                        (next, action)
                    },
                    Err(e) => self.failed(e),
                }
            },
            (FetchStage::Looking { remote }, FetchEvent::Looked(Ok(found))) => {
                let local: u64 = match found {
                    Some(n) => n,
                    None => 0,
                };
                let plan = plan_download(local, remote);
                match plan {
                    DownloadPlan::UpToDate => self.settled(),
                    _ => {
                        let mut next = self;
                        next.stage = FetchStage::Fetching;
                        let action = FetchAction::Download {
                            url: next.url.clone(),
                            path: next.target.clone(),
                            plan,
                            local,
                            remote,
                        };
                        (next, action)
                    },
                }
            },
            (FetchStage::Fetching, FetchEvent::Fetched(Ok(_))) => self.settled(),
            (FetchStage::Checking, FetchEvent::Checked(Ok(_))) => self.checked(),
            (FetchStage::Measuring, FetchEvent::Measured(Ok(size_bytes))) => {
                let mut next = self;
                next.stage = FetchStage::Over;
                let path = next.target.clone();
                (next, FetchAction::Finish(Ok(ResolvedModel { path, size_bytes })))
            },
            (FetchStage::Asking, FetchEvent::Asked(Err(e))) => self.failed(e),
            (FetchStage::Looking { .. }, FetchEvent::Looked(Err(e))) => self.failed(e),
            (FetchStage::Fetching, FetchEvent::Fetched(Err(e))) => self.failed(e),
            (FetchStage::Checking, FetchEvent::Checked(Err(e))) => self.failed(e),
            (FetchStage::Measuring, FetchEvent::Measured(Err(e))) => self.failed(e),
            _ => (self, FetchAction::Wait),
        }
    }
}

/// A fetch after events, and all that it asked for on the way.
pub open spec fn fetch_run(f: FetchView, events: Seq<FetchEvent>) -> (
    FetchView,
    Seq<FetchActionView>,
)
    decreases events.len(),
{
    if events.len() == 0 {
        (f, Seq::empty())
    } else {
        let (before, log) = fetch_run(f, events.drop_last());
        let (after, action) = fetch_step(before, events.last());
        (after, log.push(action))
    }
}

/// A digest was compared, and it was the one expected.
pub open spec fn has_check(events: Seq<FetchEvent>) -> bool {
    exists|i: int| 0 <= i < events.len() && (#[trigger] events[i] matches FetchEvent::Checked(Ok(_)))
}

/// Over any events: a download is asked for only where the sizes differ, and by the plan
/// for these sizes; a check only where a digest is expected, and by this digest; and a
/// file is handed out only as the target, with its size on disk, and never unchecked where
/// a digest is expected.
pub proof fn law_file_is_handed_out_checked(f: FetchView, events: Seq<FetchEvent>, i: int)
    requires
        f.stage == FetchStage::Asking,
        0 <= i < events.len(),
    ensures
        fetch_run(f, events).1.len() == events.len(),
        match fetch_run(f, events).1[i] {
            FetchActionView::Download { url, path, plan, local, remote } => local != remote && plan
                == plan_of(local, remote) && url == f.url && path == f.target,
            FetchActionView::Check { path, expected_hex } => f.expected_hex.len() > 0
                && expected_hex == f.expected_hex && path == f.target,
            FetchActionView::Finish(Ok((path, size))) => path == f.target
                && events[i] == FetchEvent::Measured(Ok(size)) && (f.expected_hex.len() > 0
                ==> has_check(events.take(i))),
            _ => true,
        },
    decreases events.len(),
{
    let front = events.drop_last();
    lemma_fetch(f, events);
    lemma_fetch(f, front);
    if i < front.len() {
        law_file_is_handed_out_checked(f, front, i);
        assert(front.take(i) =~= events.take(i));
        assert(front[i] == events[i]);
    } else {
        assert(events.take(i) =~= front);
        assert(events[i] == events.last());
    }
}

proof fn lemma_fetch(f: FetchView, events: Seq<FetchEvent>)
    requires
        f.stage == FetchStage::Asking,
    ensures
        fetch_run(f, events).1.len() == events.len(),
        fetch_run(f, events).0 == (FetchView { stage: fetch_run(f, events).0.stage, ..f }),
        fetch_run(f, events).0.stage is Measuring && f.expected_hex.len() > 0 ==> has_check(events),
    decreases events.len(),
{
    if events.len() > 0 {
        let front = events.drop_last();
        lemma_fetch(f, front);
        assert(events[events.len() - 1] == events.last());
        if has_check(front) {
            let i = choose|i: int|
                0 <= i < front.len() && (#[trigger] front[i] matches FetchEvent::Checked(Ok(_)));
            assert(events[i] == front[i]);
        }
    }
}

/// A local file of the size that the server states is not downloaded again.
pub proof fn law_complete_file_is_kept(f: FetchView, size: u64)
    requires
        f.stage == (FetchStage::Looking { remote: size }),
    ensures
        fetch_step(f, FetchEvent::Looked(Ok(Some(size)))) == fetch_settled(f),
        fetch_step(f, FetchEvent::Looked(Ok(Some(size)))).1 !is Download,
{
}

/// A fetch has one outcome: once it is known, nothing is asked for any more.
pub proof fn law_fetch_finishes_once(f: FetchView, events: Seq<FetchEvent>, i: int, j: int)
    requires
        f.stage == FetchStage::Asking,
        0 <= i < j < events.len(),
        fetch_run(f, events).1[i] is Finish,
    ensures
        fetch_run(f, events).1.len() == events.len(),
        fetch_run(f, events).1[j] is Wait,
        fetch_run(f, events).0.stage is Over,
    decreases events.len(),
{
    let front = events.drop_last();
    lemma_fetch(f, events);
    lemma_fetch(f, front);
    if j < front.len() {
        law_fetch_finishes_once(f, front, i, j);
    } else {
        lemma_finished(f, front, i);
    }
}

proof fn lemma_finished(f: FetchView, events: Seq<FetchEvent>, i: int)
    requires
        f.stage == FetchStage::Asking,
        0 <= i < events.len(),
        fetch_run(f, events).1[i] is Finish,
    ensures
        fetch_run(f, events).0.stage is Over,
    decreases events.len(),
{
    let front = events.drop_last();
    lemma_fetch(f, front);
    if i < front.len() {
        lemma_finished(f, front, i);
    }
}

/// A digest that is not the one expected ends a fetch with this error.
pub proof fn law_failed_check_is_the_outcome(f: FetchView, e: AppError)
    requires
        f.stage == FetchStage::Checking,
    ensures
        fetch_step(f, FetchEvent::Checked(Err(e))).1 == FetchActionView::Finish(Err(e@)),
        fetch_step(f, FetchEvent::Checked(Err(e))).0.stage is Over,
{
}

// ---------------------------------------------------------------------------
// What is there
// ---------------------------------------------------------------------------

/// Tells whether a file is a model, by its extension.
pub fn is_model_file(extension: Option<&str>) -> (r: bool)
    ensures
        r == (extension matches Some(e) && e@ == "gguf"@),
{
    match extension {
        Some(e) => same_text(e, "gguf"),
        None => false,
    }
}

/// The order of texts: by the first character in which they differ.
pub open spec fn text_le(a: Seq<char>, b: Seq<char>) -> bool
    decreases a.len(),
{
    if a.len() == 0 {
        true
    } else if b.len() == 0 {
        false
    } else if a.first() != b.first() {
        a.first() < b.first()
    } else {
        text_le(a.drop_first(), b.drop_first())
    }
}

/// The order of files: by name, then by size.
pub open spec fn entry_le(a: (Seq<char>, u64), b: (Seq<char>, u64)) -> bool {
    if a.0 == b.0 {
        a.1 <= b.1
    } else {
        text_le(a.0, b.0)
    }
}

/// Files with their names as characters.
pub open spec fn entry_views(v: Seq<(String, u64)>) -> Seq<(Seq<char>, u64)> {
    v.map_values(|e: (String, u64)| (e.0@, e.1))
}

/// A list of files in order.
pub open spec fn in_order(v: Seq<(Seq<char>, u64)>) -> bool {
    forall|i: int, j: int| 0 <= i <= j < v.len() ==> entry_le(#[trigger] v[i], #[trigger] v[j])
}

proof fn lemma_text_order(a: Seq<char>, b: Seq<char>)
    ensures
        text_le(a, a),
        text_le(a, b) || text_le(b, a),
        text_le(a, b) && text_le(b, a) ==> a == b,
    decreases a.len(),
{
    if a.len() == 0 {
        if b.len() == 0 {
            assert(a =~= b);
        }
    } else if b.len() > 0 {
        lemma_text_order(a.drop_first(), b.drop_first());
        if a.first() == b.first() && a.drop_first() == b.drop_first() {
            assert(a =~= seq![a.first()] + a.drop_first());
            assert(b =~= seq![b.first()] + b.drop_first());
        }
    } else {
        lemma_text_order(a.drop_first(), a.drop_first());
    }
}

proof fn lemma_text_chain(a: Seq<char>, b: Seq<char>, c: Seq<char>)
    requires
        text_le(a, b),
        text_le(b, c),
    ensures
        text_le(a, c),
    decreases a.len(),
{
    if a.len() > 0 && b.len() > 0 && c.len() > 0 && a.first() == b.first() && b.first()
        == c.first() {
        lemma_text_chain(a.drop_first(), b.drop_first(), c.drop_first());
    }
}

proof fn lemma_entry_order(a: (Seq<char>, u64), b: (Seq<char>, u64))
    ensures
        entry_le(a, a),
        entry_le(a, b) || entry_le(b, a),
        entry_le(a, b) && entry_le(b, a) ==> a == b,
{
    lemma_text_order(a.0, b.0);
}

proof fn lemma_entry_chain(a: (Seq<char>, u64), b: (Seq<char>, u64), c: (Seq<char>, u64))
    requires
        entry_le(a, b),
        entry_le(b, c),
    ensures
        entry_le(a, c),
{
    if a.0 != b.0 && b.0 != c.0 {
        lemma_text_chain(a.0, b.0, c.0);
        if a.0 == c.0 {
            lemma_text_order(a.0, b.0);
        }
    }
}

/// Tells whether one text comes before another or is the same.
fn text_before(a: &str, b: &str) -> (r: bool)
    ensures
        r == text_le(a@, b@),
{
    let x = chars_of(a);
    let y = chars_of(b);
    let mut i: usize = 0;
    assert(x@.skip(0) =~= x@);
    assert(y@.skip(0) =~= y@);
    while i < x.len() && i < y.len()
        invariant
            i <= x@.len(),
            i <= y@.len(),
            x@ == a@,
            y@ == b@,
            text_le(a@, b@) == text_le(x@.skip(i as int), y@.skip(i as int)),
        decreases x@.len() - i,
    {
        assert(x@.skip(i as int).first() == x@[i as int]);
        assert(y@.skip(i as int).first() == y@[i as int]);
        assert(x@.skip(i as int).drop_first() =~= x@.skip(i + 1));
        assert(y@.skip(i as int).drop_first() =~= y@.skip(i + 1));
        if x[i] != y[i] {
            return x[i] < y[i];
        }
        i = i + 1;
    }
    i == x.len()
}

/// Tells whether one file comes before another or is the same.
fn entry_before(a: &(String, u64), b: &(String, u64)) -> (r: bool)
    ensures
        r == entry_le((a.0@, a.1), (b.0@, b.1)),
{
    if same_text(a.0.as_str(), b.0.as_str()) {
        a.1 <= b.1
    } else {
        text_before(a.0.as_str(), b.0.as_str())
    }
}

/// Puts a file into its place in a list in order.
fn insert_entry(out: &mut Vec<(String, u64)>, entry: (String, u64))
    requires
        in_order(entry_views(old(out)@)),
    ensures
        in_order(entry_views(final(out)@)),
        entry_views(final(out)@).to_multiset() == entry_views(old(out)@).to_multiset().insert(
            (entry.0@, entry.1),
        ),
{
    let ghost e = (entry.0@, entry.1);
    let ghost before = entry_views(out@);
    let mut at: usize = 0;
    while at < out.len() && entry_before(&out[at], &entry)
        invariant
            at <= out@.len(),
            before == entry_views(out@),
            e == (entry.0@, entry.1),
            forall|k: int| 0 <= k < at ==> entry_le(#[trigger] before[k], e),
        decreases out@.len() - at,
    {
        assert(before[at as int] == (out@[at as int].0@, out@[at as int].1));
        at = at + 1;
    }
    assert(at < out@.len() ==> before[at as int] == (out@[at as int].0@, out@[at as int].1));
    out.insert(at, entry);
    let ghost after = entry_views(out@);
    proof {
        assert(after =~= before.insert(at as int, e));
        vstd::seq_lib::to_multiset_insert(before, at as int, e);
        assert forall|i: int, j: int| 0 <= i <= j < after.len() implies entry_le(
            #[trigger] after[i],
            #[trigger] after[j],
        ) by {
            if j == at {
                if i < at {
                    assert(after[i] == before[i]);
                } else {
                    lemma_entry_order(e, e);
                }
            } else if i == at {
                assert(after[j] == before[j - 1]);
                assert(entry_le(before[at as int], before[j - 1]));
                lemma_entry_order(before[at as int], e);
                lemma_entry_chain(e, before[at as int], before[j - 1]);
            } else {
                let a = if i < at {
                    i
                } else {
                    i - 1
                };
                let b = if j < at {
                    j
                } else {
                    j - 1
                };
                assert(after[i] == before[a]);
                assert(after[j] == before[b]);
                assert(entry_le(before[a], before[b]));
            }
        }
    }
}

/// Brings the files of a directory in order: by name, then by size.
pub fn list_local_models(found: &Vec<(String, u64)>) -> (out: Vec<(String, u64)>)
    ensures
        in_order(entry_views(out@)),
        entry_views(out@).to_multiset() == entry_views(found@).to_multiset(),
{
    let mut out: Vec<(String, u64)> = Vec::new();
    let mut i: usize = 0;
    assert(entry_views(out@) =~= entry_views(found@.take(0)));
    while i < found.len()
        invariant
            i <= found@.len(),
            in_order(entry_views(out@)),
            entry_views(out@).to_multiset() == entry_views(found@.take(i as int)).to_multiset(),
        decreases found@.len() - i,
    {
        let ghost e = (found@[i as int].0@, found@[i as int].1);
        insert_entry(&mut out, (found[i].0.clone(), found[i].1));
        proof {
            let head = entry_views(found@.take(i as int));
            assert(entry_views(found@.take(i + 1)) =~= head.push(e));
            vstd::seq_lib::to_multiset_build(head, e);
        }
        i = i + 1;
    }
    assert(found@.take(found@.len() as int) =~= found@);
    out
}

/// The order in which files are listed depends on nothing but the files: two listings
/// of the same files are the same.
pub proof fn law_listing_unique(a: Seq<(Seq<char>, u64)>, b: Seq<(Seq<char>, u64)>)
    requires
        in_order(a),
        in_order(b),
        a.to_multiset() == b.to_multiset(),
    ensures
        a == b,
{
    let leq = |x: (Seq<char>, u64), y: (Seq<char>, u64)| entry_le(x, y);
    assert(vstd::relations::total_ordering(leq)) by {
        assert forall|x: (Seq<char>, u64)| #[trigger] leq(x, x) by {
            lemma_entry_order(x, x);
        }
        assert forall|x: (Seq<char>, u64), y: (Seq<char>, u64)| #[trigger] leq(x, y)
            && #[trigger] leq(y, x) implies x == y by {
            lemma_entry_order(x, y);
        }
        assert forall|x: (Seq<char>, u64), y: (Seq<char>, u64), z: (Seq<char>, u64)| #[trigger] leq(
            x,
            y,
        ) && #[trigger] leq(y, z) implies leq(x, z) by {
            lemma_entry_chain(x, y, z);
        }
        assert forall|x: (Seq<char>, u64), y: (Seq<char>, u64)| #[trigger] leq(x, y) || leq(
            y,
            x,
        ) by {
            lemma_entry_order(x, y);
        }
    }
    vstd::seq_lib::lemma_sorted_unique(a, b, leq);
}

// ---------------------------------------------------------------------------
// The course of a fetch
// ---------------------------------------------------------------------------

/// The numeral of a number, with a plus sign before it or not, is read as the number, if 64
/// bits can hold it, and else not at all.
pub proof fn law_numerals_are_read(n: nat)
    ensures
        numeral_value(text::decimal(n)) == (if n <= u64::MAX {
            Some(n)
        } else {
            None
        }),
        numeral_value("+"@ + text::decimal(n)) == numeral_value(text::decimal(n)),
{
    let d = text::decimal(n);
    lemma_decimal_digits(n);
    reveal_strlit("+");
    assert(without_plus(d) =~= d) by {
        assert(is_digit(d[0]));
    }
    assert(without_plus("+"@ + d) =~= d);
}

/// A zero before digits changes nothing.
pub proof fn law_leading_zeros(d: Seq<char>)
    ensures
        digits_value(seq!['0'] + d) == digits_value(d),
    decreases d.len(),
{
    let padded = seq!['0'] + d;
    if d.len() > 0 {
        assert(padded.drop_last() =~= seq!['0'] + d.drop_last());
        law_leading_zeros(d.drop_last());
    } else {
        assert(padded.drop_last() =~= Seq::<char>::empty());
        assert(padded.last() == '0');
        reveal_with_fuel(digits_value, 2);
    }
}

/// A text without a digit, or with anything but digits behind the plus sign that it may
/// start with, is no numeral.
pub proof fn law_other_texts_are_no_numerals(s: Seq<char>, i: int)
    requires
        s.len() == 0 || s =~= "+"@ || (0 <= i < s.len() && !('0' <= s[i] && s[i] <= '9') && (i > 0
            || s[i] != '+')),
    ensures
        numeral_value(s) is None,
{
    reveal_strlit("+");
    let d = without_plus(s);
    if d.len() > 0 {
        if s[0] == '+' {
            assert(d[i - 1] == s[i]);
            assert(!is_digit(d[i - 1]));
        } else {
            assert(!is_digit(d[i]));
        }
    }
}

proof fn lemma_decimal_digits(n: nat)
    ensures
        text::decimal(n).len() > 0,
        forall|i: int| 0 <= i < text::decimal(n).len() ==> is_digit(#[trigger] text::decimal(n)[i]),
        digits_value(text::decimal(n)) == n,
    decreases n,
{
    let d = text::decimal(n);
    reveal_with_fuel(digits_value, 2);
    if n < 10 {
        assert(d.drop_last() =~= Seq::<char>::empty());
        assert(d.last() == text::digit_char(n as int));
    } else {
        lemma_decimal_digits(n / 10);
        assert(d.drop_last() =~= text::decimal(n / 10));
        assert(d.last() == text::digit_char((n % 10) as int));
    }
}

/// What is reported to a fetch for which all goes well: the length that the server states,
/// the size of the local file, the download where the sizes differ, the check where there
/// is a digest, and the size in the end.
pub open spec fn all_well(
    header: String,
    found: Option<u64>,
    differs: bool,
    checked: bool,
    size: u64,
) -> Seq<FetchEvent> {
    let asked = seq![FetchEvent::Asked(Ok(Some(header))), FetchEvent::Looked(Ok(found))];
    let fetched = if differs {
        asked.push(FetchEvent::Fetched(Ok(())))
    } else {
        asked
    };
    let sure = if checked {
        fetched.push(FetchEvent::Checked(Ok(())))
    } else {
        fetched
    };
    sure.push(FetchEvent::Measured(Ok(size)))
}

/// A fetch for which all goes well looks up the local file; downloads the file where it is
/// not there or of another size: the rest of it where it is shorter, and all of it where it
/// is longer or not there; compares the digest where one is expected; takes the size; and
/// hands out the file with this size.
pub proof fn law_fetch_brings_the_file(
    repo: Seq<char>,
    filename: Seq<char>,
    target: Seq<char>,
    expected_hex: Seq<char>,
    header: String,
    remote: u64,
    found: Option<u64>,
    size: u64,
)
    requires
        header@ == text::decimal(remote as nat),
    ensures
        ({
            let f = fetch_start(repo, filename, target, expected_hex);
            let local = match found {
                Some(n) => n,
                None => 0,
            };
            let differs = local != remote;
            let checked = expected_hex.len() > 0;
            let log = fetch_run(f, all_well(header, found, differs, checked, size)).1;
            let check = FetchActionView::Check { path: target, expected_hex };
            let measure = FetchActionView::Measure { path: target };
            &&& log.first() == FetchActionView::Look { path: target }
            &&& log.last() == FetchActionView::Finish(Ok((target, size)))
            &&& differs ==> log[1] == (FetchActionView::Download {
                url: url_text(repo, filename),
                path: target,
                plan: if found is None || found == Some(0u64) {
                    DownloadPlan::Start
                } else if local < remote {
                    DownloadPlan::Resume { from: local }
                } else {
                    DownloadPlan::Restart
                },
                local,
                remote,
            })
            &&& checked ==> log[log.len() - 3] == check
            &&& log[log.len() - 2] == measure
            &&& log.len() == 3 + (if differs {
                1int
            } else {
                0
            }) + (if checked {
                1int
            } else {
                0
            })
        }),
{
    law_numerals_are_read(remote as nat);
    let f = fetch_start(repo, filename, target, expected_hex);
    let local = match found {
        Some(n) => n,
        None => 0,
    };
    let differs = local != remote;
    let checked = expected_hex.len() > 0;
    let first = seq![FetchEvent::Asked(Ok(Some(header)))];
    let asked = seq![FetchEvent::Asked(Ok(Some(header))), FetchEvent::Looked(Ok(found))];
    let fetched = if differs {
        asked.push(FetchEvent::Fetched(Ok(())))
    } else {
        asked
    };
    let sure = if checked {
        fetched.push(FetchEvent::Checked(Ok(())))
    } else {
        fetched
    };
    let all = sure.push(FetchEvent::Measured(Ok(size)));
    assert(all == all_well(header, found, differs, checked, size));
    lemma_fetch_run(f, Seq::empty(), first[0]);
    assert(Seq::empty().push(first[0]) =~= first);
    lemma_fetch_run(f, first, asked[1]);
    assert(first.push(asked[1]) =~= asked);
    lemma_fetch_run(f, asked, FetchEvent::Fetched(Ok(())));
    lemma_fetch_run(f, fetched, FetchEvent::Checked(Ok(())));
    lemma_fetch_run(f, sure, FetchEvent::Measured(Ok(size)));
}

/// One more event.
proof fn lemma_fetch_run(f: FetchView, events: Seq<FetchEvent>, event: FetchEvent)
    ensures
        fetch_run(f, Seq::empty()) == (f, Seq::<FetchActionView>::empty()),
        fetch_run(f, events.push(event)).0 == fetch_step(fetch_run(f, events).0, event).0,
        fetch_run(f, events.push(event)).1 == fetch_run(f, events).1.push(
            fetch_step(fetch_run(f, events).0, event).1,
        ),
{
    assert(events.push(event).drop_last() =~= events);
    assert(events.push(event).last() == event);
}

/// The error that an event reports, where a fetch that asked for `action` last is told of it.
pub open spec fn reports_failure(action: FetchActionView, event: FetchEvent) -> Option<ErrorView> {
    match (action, event) {
        (FetchActionView::Ask { .. }, FetchEvent::Asked(Err(e))) => Some(e@),
        (FetchActionView::Look { .. }, FetchEvent::Looked(Err(e))) => Some(e@),
        (FetchActionView::Download { .. }, FetchEvent::Fetched(Err(e))) => Some(e@),
        (FetchActionView::Check { .. }, FetchEvent::Checked(Err(e))) => Some(e@),
        (FetchActionView::Measure { .. }, FetchEvent::Measured(Err(e))) => Some(e@),
        _ => None,
    }
}

/// Whatever a fetch asked for, if it fails the fetch ends with this error.
pub proof fn law_failure_ends_the_fetch(f: FetchView, before: FetchEvent, event: FetchEvent)
    requires
        reports_failure(fetch_step(f, before).1, event) is Some,
    ensures
        fetch_step(fetch_step(f, before).0, event).1 == FetchActionView::Finish(
            Err(reports_failure(fetch_step(f, before).1, event)->Some_0),
        ),
{
}

/// A server that states no length, or none that can be read, and one that cannot be asked
/// end a fetch at once.
pub proof fn law_length_is_needed(
    repo: Seq<char>,
    filename: Seq<char>,
    target: Seq<char>,
    expected_hex: Seq<char>,
    header: Option<String>,
    e: AppError,
)
    requires
        header matches Some(h) ==> h@.len() == 0 || !('0' <= h@.last() && h@.last() <= '9'),
    ensures
        ({
            let f = fetch_start(repo, filename, target, expected_hex);
            &&& fetch_step(f, FetchEvent::Asked(Ok(header))).1 == FetchActionView::Finish(
                Err(ErrorView::Internal("missing Content-Length header"@)),
            )
            &&& fetch_step(f, FetchEvent::Asked(Err(e))).1 == FetchActionView::Finish(Err(e@))
        }),
{
    if let Some(h) = header {
        reveal_strlit("+");
        if h@.len() == 1 && h@[0] == '+' {
            assert(h@ =~= "+"@);
        }
        law_other_texts_are_no_numerals(h@, h@.len() - 1);
    }
}

/// Two texts agree up to a position, and there one ends or has the smaller character.
pub open spec fn comes_first_at(a: Seq<char>, b: Seq<char>, i: int) -> bool {
    &&& 0 <= i <= a.len()
    &&& i <= b.len()
    &&& forall|k: int| 0 <= k < i ==> a[k] == #[trigger] b[k]
    &&& i == a.len() || i < b.len() && a[i] < b[i]
}

/// Files are listed by name, in ascending order: of two names, the one that comes first is
/// the beginning of the other, or has the smaller character where they first differ. Files
/// of one name go by their size.
pub proof fn law_files_ascend(v: Seq<(Seq<char>, u64)>, i: int, j: int)
    requires
        in_order(v),
        0 <= i < j < v.len(),
    ensures
        exists|k: int| #[trigger] comes_first_at(v[i].0, v[j].0, k),
        v[i].0 == v[j].0 ==> v[i].1 <= v[j].1,
{
    assert(entry_le(v[i], v[j]));
    if v[i].0 == v[j].0 {
        assert(comes_first_at(v[i].0, v[j].0, v[i].0.len() as int));
    } else {
        lemma_comes_first(v[i].0, v[j].0);
    }
}

proof fn lemma_comes_first(a: Seq<char>, b: Seq<char>)
    requires
        text_le(a, b),
    ensures
        exists|k: int| #[trigger] comes_first_at(a, b, k),
    decreases a.len(),
{
    if a.len() == 0 || b.len() == 0 || a.first() != b.first() {
        assert(comes_first_at(a, b, 0));
    } else {
        lemma_comes_first(a.drop_first(), b.drop_first());
        let k = choose|k: int| #[trigger] comes_first_at(a.drop_first(), b.drop_first(), k);
        assert forall|m: int| 0 <= m < k + 1 implies a[m] == #[trigger] b[m] by {
            if m > 0 {
                assert(a.drop_first()[m - 1] == b.drop_first()[m - 1]);
            }
        }
        assert(comes_first_at(a, b, k + 1));
    }
}

} // verus!
