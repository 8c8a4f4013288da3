//! The local object store: blobs under the digests of their contents.
//!
//! The store decides where a blob belongs, how it gets there and whether what is found there may be
//! used; the files themselves are touched by its callers. Paths are written with `/`.

use vstd::prelude::*;
use vstd::string::*;

use crate::collections::NameSet;
use crate::text::{chars_of, concat2, concat3, concat4, decimal_text, same_text, strip_prefix};

verus! {

/// What `sha2::Sha256::digest` makes of some bytes: their SHA-256.
pub uninterp spec fn sha256(bytes: Seq<u8>) -> Seq<u8>;

/// Calls `sha2::Sha256::digest`. The digest is named `sha256`: it depends on the bytes alone. It has
/// 32 bytes.
#[verifier::external_body]
fn sha256_digest(bytes: &Vec<u8>) -> (digest: Vec<u8>)
    ensures
        digest@ == sha256(bytes@),
        digest@.len() == 32,
{
    <sha2::Sha256 as sha2::Digest>::digest(bytes).to_vec()
}

/// Two lower-case hexadecimal digits for each byte, the higher one first.
pub open spec fn hex_text(bytes: Seq<u8>) -> Seq<char> {
    Seq::new(
        2 * bytes.len(),
        |i: int|
            crate::ids::hex_digit(
                if i % 2 == 0 {
                    bytes[i / 2] as nat / 16
                } else {
                    bytes[i / 2] as nat % 16
                },
            ),
    )
}

/// Calls `hex::encode`, which writes each byte as two lower-case hexadecimal digits.
#[verifier::external_body]
fn hex_encode(bytes: &Vec<u8>) -> (text: String)
    ensures
        text@ == hex_text(bytes@),
{
    hex::encode(bytes)
}

/// The name of a content: `sha256:` and the digits of its SHA-256.
pub open spec fn content_digest(bytes: Seq<u8>) -> Seq<char> {
    "sha256:"@ + hex_text(sha256(bytes))
}

pub fn digest_of(bytes: &Vec<u8>) -> (text: String)
    ensures
        text@ == content_digest(bytes@),
{
    concat2("sha256:", hex_encode(&sha256_digest(bytes)).as_str())
}

/// A hexadecimal digit of either case.
pub open spec fn hex_character(c: char) -> bool {
    '0' <= c <= '9' || 'a' <= c <= 'f' || 'A' <= c <= 'F'
}

/// The digits of a digest that the store can address: 64 of them after `sha256:`.
pub open spec fn addressed(digest: Seq<char>) -> Option<Seq<char>> {
    match crate::text::after_prefix(digest, "sha256:"@) {
        Some(digits) => if digits.len() == 64 && forall|i: int|
            0 <= i < digits.len() ==> hex_character(#[trigger] digits[i]) {
            Some(digits)
        } else {
            None
        },
        None => None,
    }
}

/// A path and a name in it.
pub open spec fn joined(path: Seq<char>, name: Seq<char>) -> Seq<char> {
    if path.len() == 0 || path.last() == '/' {
        path + name
    } else {
        path + "/"@ + name
    }
}

fn join_path(path: &str, name: &str) -> (r: String)
    ensures
        r@ == joined(path@, name@),
{
    let n: usize = path.unicode_len();
    if n == 0 || path.get_char(n - 1) == '/' {
        concat2(path, name)
    } else {
        concat3(path, "/", name)
    }
}

/// Why a digest, or what was found under one, is refused.
#[derive(Debug, PartialEq)]
pub enum StoreError {
    UnsupportedDigest(String),
    DigestMismatch { expected: String, actual: String },
}

pub enum StoreErrorModel {
    UnsupportedDigest(Seq<char>),
    DigestMismatch { expected: Seq<char>, actual: Seq<char> },
}

impl View for StoreError {
    type V = StoreErrorModel;

    open spec fn view(&self) -> StoreErrorModel {
        match self {
            StoreError::UnsupportedDigest(digest) => StoreErrorModel::UnsupportedDigest(digest@),
            StoreError::DigestMismatch { expected, actual } => StoreErrorModel::DigestMismatch {
                expected: expected@,
                actual: actual@,
            },
        }
    }
}

impl StoreErrorModel {
    pub open spec fn description(self) -> Seq<char> {
        match self {
            StoreErrorModel::UnsupportedDigest(digest) => "unsupported digest "@ + digest,
            StoreErrorModel::DigestMismatch { expected, actual } => "object digest mismatch: expected "@
                + expected + ", got "@ + actual,
        }
    }
}

impl StoreError {
    pub fn message(&self) -> (r: String)
        ensures
            r@ == self@.description(),
    {
        match self {
            StoreError::UnsupportedDigest(digest) => concat2("unsupported digest ", digest.as_str()),
            StoreError::DigestMismatch { expected, actual } => concat4(
                "object digest mismatch: expected ",
                expected.as_str(),
                ", got ",
                actual.as_str(),
            ),
        }
    }
}

/// A blob of the store.
#[derive(Debug, PartialEq)]
pub struct StoredObject {
    pub digest: String,
    pub size_bytes: u64,
    pub path: String,
}

#[verifier::ext_equal]
pub struct StoredModel {
    pub digest: Seq<char>,
    pub size_bytes: u64,
    pub path: Seq<char>,
}

impl View for StoredObject {
    type V = StoredModel;

    open spec fn view(&self) -> StoredModel {
        StoredModel { digest: self.digest@, size_bytes: self.size_bytes, path: self.path@ }
    }
}

impl Clone for StoredObject {
    fn clone(&self) -> (r: StoredObject)
        ensures
            r@ == self@,
    {
        StoredObject {
            digest: self.digest.clone(),
            size_bytes: self.size_bytes,
            path: self.path.clone(),
        }
    }
}

/// A store in a directory.
#[derive(Debug)]
pub struct LocalObjectStore {
    root: String,
}

impl View for LocalObjectStore {
    type V = Seq<char>;

    closed spec fn view(&self) -> Seq<char> {
        self.root@
    }
}

impl Clone for LocalObjectStore {
    fn clone(&self) -> (r: LocalObjectStore)
        ensures
            r@ == self@,
    {
        LocalObjectStore { root: self.root.clone() }
    }
}

/// The directory of the blobs of a store.
pub open spec fn blob_directory(root: Seq<char>) -> Seq<char> {
    joined(root, "sha256"@)
}

/// The path of a blob by the digits of its digest.
pub open spec fn blob_path(root: Seq<char>, digits: Seq<char>) -> Seq<char> {
    joined(blob_directory(root), digits)
}

/// Where bytes belong in a store.
pub open spec fn placed(root: Seq<char>, bytes: Seq<u8>) -> StoredModel {
    StoredModel {
        digest: content_digest(bytes),
        size_bytes: bytes.len() as u64,
        path: blob_path(root, hex_text(sha256(bytes))),
    }
}

/// What a read makes of the bytes that it found under a digest.
pub open spec fn checked(digest: Seq<char>, bytes: Seq<u8>) -> Result<(), StoreErrorModel> {
    if content_digest(bytes) == digest {
        Ok(())
    } else {
        Err(StoreErrorModel::DigestMismatch { expected: digest, actual: content_digest(bytes) })
    }
}

/// An answer with its error as a plain value.
pub open spec fn plain<T>(r: Result<T, StoreError>) -> Result<T, StoreErrorModel> {
    match r {
        Ok(value) => Ok(value),
        Err(error) => Err(error@),
    }
}

fn is_hex_character(c: char) -> (r: bool)
    ensures
        r == hex_character(c),
{
    ('0' <= c && c <= '9') || ('a' <= c && c <= 'f') || ('A' <= c && c <= 'F')
}

/// Whether bytes are those of a digest.
pub(crate) fn check_digest(expected: &str, bytes: &Vec<u8>) -> (r: Result<(), StoreError>)
    ensures
        plain(r) == checked(expected@, bytes@),
{
    let actual = digest_of(bytes);
    if same_text(actual.as_str(), expected) {
        Ok(())
    } else {
        Err(StoreError::DigestMismatch { expected: expected.to_owned(), actual })
    }
}

impl LocalObjectStore {
    pub fn new(root: &str) -> (r: LocalObjectStore)
        ensures
            r@ == root@,
    {
        LocalObjectStore { root: root.to_owned() }
    }

    pub fn root(&self) -> (r: &str)
        ensures
            r@ == self@,
    {
        self.root.as_str()
    }

    /// The directory that has to be there before blobs can be.
    pub fn directory(&self) -> (r: String)
        ensures
            r@ == blob_directory(self@),
    {
        join_path(self.root.as_str(), "sha256")
    }

    /// Where bytes belong.
    pub fn place(&self, bytes: &Vec<u8>) -> (r: StoredObject)
        ensures
            r@ == placed(self@, bytes@),
            addressed(r@.digest) matches Some(digits) && r@.path == blob_path(self@, digits),
    {
        let digest = sha256_digest(bytes);
        let digits = hex_encode(&digest);
        proof {
            law_reads_give_back_what_was_put(self@, bytes@);
        }
        StoredObject {
            digest: concat2("sha256:", digits.as_str()),
            size_bytes: bytes.len() as u64,
            path: join_path(self.directory().as_str(), digits.as_str()),
        }
    }

    /// Where bytes are written before they get their place, under a name that no other writer has:
    /// that of the process and a number that it has not used.
    pub fn temporary_path(&self, bytes: &Vec<u8>, process: u32, number: u64) -> (r: String)
        ensures
            r@ == joined(
                blob_directory(self@),
                "."@ + hex_text(sha256(bytes@)) + "."@ + crate::text::decimal(process as nat) + (
                "."@ + crate::text::decimal(number as nat) + ".tmp"@),
            ),
    {
        let digits = hex_encode(&sha256_digest(bytes));
        let owner = concat4(".", digits.as_str(), ".", decimal_text(process as u64).as_str());
        let end = concat3(".", decimal_text(number).as_str(), ".tmp");
        let name = concat2(owner.as_str(), end.as_str());
        join_path(self.directory().as_str(), name.as_str())
    }

    /// The path of the blob of a digest.
    pub fn path_for_digest(&self, digest: &str) -> (r: Result<String, StoreError>)
        ensures
            match r {
                Ok(path) => addressed(digest@) matches Some(digits) && path@ == blob_path(
                    self@,
                    digits,
                ),
                Err(error) => addressed(digest@) is None && error@
                    == StoreErrorModel::UnsupportedDigest(digest@),
            },
    {
        let digits = match strip_prefix(digest, "sha256:") {
            Some(digits) => digits,
            None => {
                return Err(StoreError::UnsupportedDigest(digest.to_owned()));
            },
        };
        let chars = chars_of(digits);
        if chars.len() != 64 {
            return Err(StoreError::UnsupportedDigest(digest.to_owned()));
        }
        let mut i: usize = 0;
        while i < chars.len()
            invariant
                i <= chars@.len() == 64,
                chars@ == digits@,
                crate::text::after_prefix(digest@, "sha256:"@) == Some(digits@),
                forall|j: int| 0 <= j < i ==> hex_character(#[trigger] digits@[j]),
            decreases chars@.len() - i,
        {
            if !is_hex_character(chars[i]) {
                assert(!hex_character(digits@[i as int]));
                return Err(StoreError::UnsupportedDigest(digest.to_owned()));
            }
            i = i + 1;
        }
        Ok(join_path(self.directory().as_str(), digits))
    }

    /// Whether the store has the blob of a digest, by the paths of the files that are there.
    pub fn contains(&self, digest: &str, files: &NameSet) -> (r: bool)
        ensures
            r == (addressed(digest@) matches Some(digits) && files@.contains(blob_path(self@, digits))),
    {
        match self.path_for_digest(digest) {
            Ok(path) => files.contains(path.as_str()),
            Err(_) => false,
        }
    }

    /// Whether bytes are those of a digest.
    pub fn verify(&self, expected: &str, bytes: &Vec<u8>) -> (r: Result<(), StoreError>)
        ensures
            plain(r) == checked(expected@, bytes@),
    {
        check_digest(expected, bytes)
    }

    /// Gives out bytes that were read under a digest, if they are those of the digest.
    pub fn release(&self, digest: &str, bytes: Vec<u8>) -> (r: Result<Vec<u8>, StoreError>)
        ensures
            match r {
                Ok(released) => checked(digest@, bytes@) is Ok && released@ == bytes@,
                Err(error) => checked(digest@, bytes@) matches Err(reason) && reason == error@,
            },
    {
        match self.verify(digest, &bytes) {
            Ok(_) => Ok(bytes),
            Err(error) => Err(error),
        }
    }
}

/// What is to be done next to put a blob in its place.
#[derive(Clone, Copy, Debug, PartialEq, Eq, Structural)]
pub enum PutStep {
    /// See whether the blob is in its place.
    Look,
    /// Write the bytes to the temporary path.
    Write,
    /// Move the temporary file to the place of the blob.
    Rename,
    /// See whether another writer has put the blob in its place meanwhile.
    LookAgain,
    /// Remove the temporary file, whether or not that succeeds.
    Discard,
    Done,
    Failed,
}

/// What came of a step.
#[derive(Clone, Copy, Debug, PartialEq, Eq, Structural)]
pub enum PutEvent {
    Present,
    Absent,
    Succeeded,
    Refused,
}

/// The step that follows a step and what came of it.
pub open spec fn put_step_after(step: PutStep, event: PutEvent) -> PutStep {
    match (step, event) {
        (PutStep::Look, PutEvent::Present) => PutStep::Done,
        (PutStep::Look, _) => PutStep::Write,
        (PutStep::Write, PutEvent::Succeeded) => PutStep::Rename,
        (PutStep::Rename, PutEvent::Succeeded) => PutStep::Done,
        (PutStep::Rename, _) => PutStep::LookAgain,
        (PutStep::LookAgain, PutEvent::Present) => PutStep::Discard,
        (PutStep::Discard, _) => PutStep::Done,
        (PutStep::Done, _) => PutStep::Done,
        _ => PutStep::Failed,
    }
}

pub fn next_put_step(step: PutStep, event: PutEvent) -> (r: PutStep)
    ensures
        r == put_step_after(step, event),
{
    match (step, event) {
        (PutStep::Look, PutEvent::Present) => PutStep::Done,
        (PutStep::Look, _) => PutStep::Write,
        (PutStep::Write, PutEvent::Succeeded) => PutStep::Rename,
        (PutStep::Rename, PutEvent::Succeeded) => PutStep::Done,
        (PutStep::Rename, _) => PutStep::LookAgain,
        (PutStep::LookAgain, PutEvent::Present) => PutStep::Discard,
        (PutStep::Discard, _) => PutStep::Done,
        (PutStep::Done, _) => PutStep::Done,
        _ => PutStep::Failed,
    }
}

/// The step that is reached from the first by way of the first `k` events.
pub open spec fn put_step_by(events: Seq<PutEvent>, k: nat) -> PutStep
    decreases k,
{
    if k == 0 {
        PutStep::Look
    } else {
        put_step_after(put_step_by(events, (k - 1) as nat), events[k - 1])
    }
}

/// An event that tells that the blob is in its place: it was found there, or it was just moved there.
pub open spec fn settles(step: PutStep, event: PutEvent) -> bool {
    ||| step == PutStep::Look && event == PutEvent::Present
    ||| step == PutStep::Rename && event == PutEvent::Succeeded
    ||| step == PutStep::LookAgain && event == PutEvent::Present
}

/// A put ends well only once the blob has been seen in, or moved to, its place.
pub proof fn law_puts_end_with_the_blob_in_place(events: Seq<PutEvent>, k: nat)
    requires
        k <= events.len(),
        put_step_by(events, k) == PutStep::Done || put_step_by(events, k) == PutStep::Discard,
    ensures
        exists|i: int|
            0 <= i < k && #[trigger] settles(put_step_by(events, i as nat), events[i]),
    decreases k,
{
    let before = put_step_by(events, (k - 1) as nat);
    if before == PutStep::Done || before == PutStep::Discard {
        law_puts_end_with_the_blob_in_place(events, (k - 1) as nat);
        let i = choose|i: int|
            0 <= i < k - 1 && #[trigger] settles(put_step_by(events, i as nat), events[i]);
        assert(settles(put_step_by(events, i as nat), events[i]));
    } else {
        assert(settles(put_step_by(events, (k - 1) as nat), events[k - 1]));
    }
}

/// Writers of the same content converge: a writer whose move fails because another was faster ends
/// well all the same, and a put takes at most five steps.
pub proof fn law_writers_converge(events: Seq<PutEvent>)
    ensures
        events.len() >= 5 ==> put_step_by(events, 5) == PutStep::Done || put_step_by(events, 5)
            == PutStep::Failed,
        events.len() >= 4 && put_step_by(events, 2) == PutStep::Rename && events[2] != PutEvent::Succeeded
            && events[3] == PutEvent::Present ==> put_step_by(events, 4) == PutStep::Discard,
{
    reveal_with_fuel(put_step_by, 6);
}

proof fn lemma_hex_text(bytes: Seq<u8>, i: int)
    requires
        0 <= i < 2 * bytes.len(),
    ensures
        hex_character(hex_text(bytes)[i]),
{
    let b = bytes[i / 2] as nat;
    assert(b / 16 < 16 && b % 16 < 16);
}

proof fn lemma_hex_digit(a: nat, b: nat)
    requires
        a < 16,
        b < 16,
        crate::ids::hex_digit(a) == crate::ids::hex_digit(b),
    ensures
        a == b,
{
}

/// Different bytes have different hexadecimal digits.
proof fn lemma_hex_distinguishes(a: Seq<u8>, b: Seq<u8>)
    requires
        hex_text(a) == hex_text(b),
    ensures
        a == b,
{
    assert(hex_text(a).len() == 2 * a.len());
    assert(hex_text(b).len() == 2 * b.len());
    assert forall|i: int| 0 <= i < a.len() implies a[i] == b[i] by {
        let x = a[i] as nat;
        let y = b[i] as nat;
        let high = 2 * i;
        let low = 2 * i + 1;
        assert(high / 2 == i && high % 2 == 0);
        assert(low / 2 == i && low % 2 == 1);
        assert(hex_text(a)[high] == crate::ids::hex_digit(x / 16));
        assert(hex_text(b)[high] == crate::ids::hex_digit(y / 16));
        assert(hex_text(a)[low] == crate::ids::hex_digit(x % 16));
        assert(hex_text(b)[low] == crate::ids::hex_digit(y % 16));
        assert(x / 16 < 16 && x % 16 < 16 && y / 16 < 16 && y % 16 < 16);
        lemma_hex_digit(x / 16, y / 16);
        lemma_hex_digit(x % 16, y % 16);
        assert(x == 16 * (x / 16) + x % 16);
        assert(y == 16 * (y / 16) + y % 16);
    }
    assert(a =~= b);
}

/// What was put is found again: the content passes when it is read under its digest, and the digest,
/// having 64 digits, addresses the place of its blob.
pub proof fn law_reads_give_back_what_was_put(root: Seq<char>, bytes: Seq<u8>)
    ensures
        checked(placed(root, bytes).digest, bytes) is Ok,
        sha256(bytes).len() == 32 ==> (addressed(placed(root, bytes).digest) matches Some(digits)
            && blob_path(root, digits) == placed(root, bytes).path),
{
    let prefix = "sha256:"@;
    let digits = hex_text(sha256(bytes));
    let digest = content_digest(bytes);
    assert(digest.subrange(0, prefix.len() as int) =~= prefix);
    assert(digest.skip(prefix.len() as int) =~= digits);
    assert forall|i: int| 0 <= i < digits.len() implies hex_character(#[trigger] digits[i]) by {
        lemma_hex_text(sha256(bytes), i);
    }
}

/// Bytes whose SHA-256 is not that of a content are refused under its digest.
pub proof fn law_corrupted_bytes_are_refused(bytes: Seq<u8>, found: Seq<u8>)
    requires
        sha256(found) != sha256(bytes),
    ensures
        checked(content_digest(bytes), found) is Err,
{
    let prefix = "sha256:"@;
    if content_digest(found) == content_digest(bytes) {
        assert(content_digest(found).skip(prefix.len() as int) =~= hex_text(sha256(found)));
        assert(content_digest(bytes).skip(prefix.len() as int) =~= hex_text(sha256(bytes)));
        lemma_hex_distinguishes(sha256(found), sha256(bytes));
    }
}

}
