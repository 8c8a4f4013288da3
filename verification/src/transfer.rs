//! The data plane: serving blobs and parts of them, and fetching the inputs of tasks.

use vstd::prelude::*;
use vstd::string::*;

use crate::coordinator_model::ApiErrorModel;
use crate::ids::{ObjectId, ResourceId, TaskId};
use crate::objects::{ObjectMetadata, ObjectModel};
use crate::store::{digest_of, StoredModel, StoredObject};
use crate::text::{chars_of, concat2, concat4, decimal_text, parse_digits, strip_prefix};

verus! {

/// The bytes of a probe for throughput.
pub const PROBE_BYTES: usize = 262_144;

/// The most bytes that a probe may ask for.
pub const MAX_PROBE_BYTES: usize = 1_048_576;

/// Why a request for data is refused: the status of the answer, and a text.
#[derive(Clone, Debug, PartialEq, Eq)]
pub struct DataError {
    pub status: u16,
    pub message: String,
}

impl View for DataError {
    type V = ApiErrorModel;

    open spec fn view(&self) -> ApiErrorModel {
        ApiErrorModel { status: self.status, message: self.message@ }
    }
}

impl DataError {
    pub fn bad_request(message: &str) -> (r: DataError)
        ensures
            r@ == (ApiErrorModel { status: 400, message: message@ }),
    {
        DataError { status: 400, message: message.to_owned() }
    }

    pub fn internal(message: &str) -> (r: DataError)
        ensures
            r@ == (ApiErrorModel { status: 500, message: message@ }),
    {
        DataError { status: 500, message: message.to_owned() }
    }

    pub fn not_found(message: &str) -> (r: DataError)
        ensures
            r@ == (ApiErrorModel { status: 404, message: message@ }),
    {
        DataError { status: 404, message: message.to_owned() }
    }

    pub fn range_not_satisfiable(message: &str) -> (r: DataError)
        ensures
            r@ == (ApiErrorModel { status: 416, message: message@ }),
    {
        DataError { status: 416, message: message.to_owned() }
    }
}

/// The payload of a probe: zeros, of no more than the allowed number.
pub fn probe_payload(bytes: usize) -> (r: Result<Vec<u8>, DataError>)
    ensures
        match r {
            Ok(payload) => bytes <= MAX_PROBE_BYTES && payload@ == Seq::new(
                bytes as nat,
                |i: int| 0u8,
            ),
            Err(error) => bytes > MAX_PROBE_BYTES && error@ == (ApiErrorModel {
                status: 400,
                message: "probe payload cannot exceed 1048576 bytes"@,
            }),
        },
{
    if bytes > MAX_PROBE_BYTES {
        return Err(DataError::bad_request("probe payload cannot exceed 1048576 bytes"));
    }
    let mut payload: Vec<u8> = Vec::new();
    let mut i: usize = 0;
    while i < bytes
        invariant
            i <= bytes,
            payload@.len() == i,
            forall|j: int| 0 <= j < i ==> payload@[j] == 0,
        decreases bytes - i,
    {
        payload.push(0);
        i = i + 1;
    }
    assert(payload@ =~= Seq::new(bytes as nat, |i: int| 0u8));
    Ok(payload)
}

/// The description of an object that was just stored.
pub open spec fn described(
    id: ObjectId,
    stored: StoredModel,
    resource_id: ResourceId,
    producer: Option<TaskId>,
) -> ObjectModel {
    ObjectModel {
        id,
        size_bytes: stored.size_bytes,
        digest: Some(stored.digest),
        encoding: Some("application/octet-stream"@),
        locations: seq![resource_id],
        producer,
    }
}

/// Describes an object that was just stored, under a given identity.
pub fn describe_as(id: ObjectId, stored: &StoredObject, resource_id: ResourceId, producer: Option<TaskId>) -> (r:
    ObjectMetadata)
    ensures
        r@ == described(id, stored@, resource_id, producer),
{
    let mut locations: Vec<ResourceId> = Vec::new();
    locations.push(resource_id);
    assert(locations@ =~= seq![resource_id]);
    ObjectMetadata {
        id,
        size_bytes: stored.size_bytes,
        digest: Some(stored.digest.clone()),
        encoding: Some("application/octet-stream".to_owned()),
        locations,
        producer,
    }
}

/// Describes an object that was just stored, under a random identity.
pub fn describe(stored: &StoredObject, resource_id: ResourceId, producer: Option<TaskId>) -> (r:
    ObjectMetadata)
    ensures
        r@ == described(r.id, stored@, resource_id, producer),
{
    describe_as(ObjectId::new(), stored, resource_id, producer)
}

/// The first place from `i` on where a character stands.
pub open spec fn position_from(s: Seq<char>, c: char, i: int) -> Option<int>
    decreases s.len() - i,
{
    if i < 0 || i >= s.len() {
        None
    } else if s[i] == c {
        Some(i)
    } else {
        position_from(s, c, i + 1)
    }
}

fn find_char(chars: &Vec<char>, c: char, from: usize) -> (r: Option<usize>)
    requires
        from <= chars@.len(),
    ensures
        match r {
            Some(i) => from <= i < chars@.len() && position_from(chars@, c, from as int) == Some(i as int),
            None => position_from(chars@, c, from as int) is None,
        },
{
    let mut i: usize = from;
    while i < chars.len()
        invariant
            from <= i <= chars@.len(),
            position_from(chars@, c, from as int) == position_from(chars@, c, i as int),
        decreases chars@.len() - i,
    {
        if chars[i] == c {
            return Some(i);
        }
        i = i + 1;
    }
    None
}

/// The part of an object that a header asks for: from the first byte to before the last.
pub open spec fn parsed_range(value: Option<Seq<char>>, total: usize) -> Result<
    Option<(usize, usize)>,
    ApiErrorModel,
> {
    match value {
        None => Ok(None),
        Some(text) => match crate::text::after_prefix(text, "bytes="@) {
            None => Err(
                ApiErrorModel { status: 400, message: "only byte ranges are supported"@ },
            ),
            Some(range) => if position_from(range, ',', 0) is Some {
                Err(
                    ApiErrorModel { status: 400, message: "multiple byte ranges are not supported"@ },
                )
            } else {
                match position_from(range, '-', 0) {
                    None => Err(ApiErrorModel { status: 400, message: "invalid byte range"@ }),
                    Some(dash) => match (
                        crate::text::parsed_number(range.take(dash), usize::MAX as u64),
                        crate::text::parsed_number(range.skip(dash + 1), usize::MAX as u64),
                    ) {
                        (None, _) => Err(
                            ApiErrorModel {
                                status: 400,
                                message: "byte range start must be an integer"@,
                            },
                        ),
                        (Some(_), None) => Err(
                            ApiErrorModel {
                                status: 400,
                                message: "byte range end must be an integer"@,
                            },
                        ),
                        (Some(start), Some(end)) => if start > end || end >= total {
                            Err(
                                ApiErrorModel {
                                    status: 416,
                                    message: "byte range is outside the object"@,
                                },
                            )
                        } else {
                            Ok(Some((start as usize, (end + 1) as usize)))
                        },
                    },
                }
            },
        },
    }
}

/// An answer with its error as a plain value.
pub open spec fn plain<T>(r: Result<T, DataError>) -> Result<T, ApiErrorModel> {
    match r {
        Ok(value) => Ok(value),
        Err(error) => Err(error@),
    }
}

/// Reads the `Range` header of a request for an object of a given size.
pub fn parse_byte_range(value: Option<&str>, total: usize) -> (r: Result<
    Option<(usize, usize)>,
    DataError,
>)
    ensures
        plain(r) == parsed_range(
            match value {
                Some(text) => Some(text@),
                None => None,
            },
            total,
        ),
{
    let text = match value {
        Some(text) => text,
        None => {
            return Ok(None);
        },
    };
    let range = match strip_prefix(text, "bytes=") {
        Some(range) => range,
        None => {
            return Err(DataError::bad_request("only byte ranges are supported"));
        },
    };
    let chars = chars_of(range);
    if find_char(&chars, ',', 0).is_some() {
        return Err(DataError::bad_request("multiple byte ranges are not supported"));
    }
    let dash: usize = match find_char(&chars, '-', 0) {
        Some(dash) => dash,
        None => {
            return Err(DataError::bad_request("invalid byte range"));
        },
    };
    let n: usize = chars.len();
    assert(chars@.subrange(0, dash as int) =~= range@.take(dash as int));
    assert(chars@.subrange(dash + 1, n as int) =~= range@.skip(dash + 1));
    let start: u64 = match parse_digits(&chars, 0, dash, usize::MAX as u64) {
        Some(start) => start,
        None => {
            return Err(DataError::bad_request("byte range start must be an integer"));
        },
    };
    let end: u64 = match parse_digits(&chars, dash + 1, n, usize::MAX as u64) {
        Some(end) => end,
        None => {
            return Err(DataError::bad_request("byte range end must be an integer"));
        },
    };
    if start > end || end >= total as u64 {
        return Err(DataError::range_not_satisfiable("byte range is outside the object"));
    }
    Ok(Some((start as usize, end as usize + 1)))
}

/// The header that asks for the bytes from `offset` to before `end`.
pub open spec fn range_request(offset: u64, end: u64) -> Seq<char> {
    "bytes="@ + crate::text::decimal(offset as nat) + "-"@ + crate::text::decimal((end - 1) as nat)
}

pub fn range_header(offset: u64, end: u64) -> (r: String)
    requires
        offset < end,
    ensures
        r@ == range_request(offset, end),
{
    concat4("bytes=", decimal_text(offset).as_str(), "-", decimal_text(end - 1).as_str())
}

/// The answer to a request for a blob.
#[derive(Debug, PartialEq)]
pub struct BlobReply {
    pub status: u16,
    pub payload: Vec<u8>,
    pub content_range: Option<String>,
    pub range_digest: Option<String>,
    pub digest: String,
}

#[verifier::ext_equal]
pub struct BlobModel {
    pub status: u16,
    pub payload: Seq<u8>,
    pub content_range: Option<Seq<char>>,
    pub range_digest: Option<Seq<char>>,
    pub digest: Seq<char>,
}

impl View for BlobReply {
    type V = BlobModel;

    open spec fn view(&self) -> BlobModel {
        BlobModel {
            status: self.status,
            payload: self.payload@,
            content_range: crate::text::view_of(self.content_range),
            range_digest: crate::text::view_of(self.range_digest),
            digest: self.digest@,
        }
    }
}

/// The whole blob, or the part that was asked for together with its own digest.
pub open spec fn served(digest: Seq<char>, bytes: Seq<u8>, range: Option<(usize, usize)>) -> BlobModel {
    match range {
        None => BlobModel {
            status: 200,
            payload: bytes,
            content_range: None,
            range_digest: None,
            digest,
        },
        Some((start, end)) => BlobModel {
            status: 206,
            payload: bytes.subrange(start as int, end as int),
            content_range: Some(
                "bytes "@ + crate::text::decimal(start as nat) + "-"@ + crate::text::decimal(
                    (end - 1) as nat,
                ) + ("/"@ + crate::text::decimal(bytes.len())),
            ),
            range_digest: Some(
                crate::store::content_digest(bytes.subrange(start as int, end as int)),
            ),
            digest,
        },
    }
}

/// A part of some bytes.
pub fn part_of(bytes: &Vec<u8>, start: usize, end: usize) -> (r: Vec<u8>)
    requires
        start <= end <= bytes@.len(),
    ensures
        r@ == bytes@.subrange(start as int, end as int),
{
    let mut part: Vec<u8> = Vec::new();
    let mut i: usize = start;
    while i < end
        invariant
            start <= i <= end <= bytes@.len(),
            part@ == bytes@.subrange(start as int, i as int),
        decreases end - i,
    {
        part.push(bytes[i]);
        assert(bytes@.subrange(start as int, i + 1) =~= bytes@.subrange(start as int, i as int).push(
            bytes@[i as int],
        ));
        i = i + 1;
    }
    part
}

/// Answers a request for a blob that was read, by the `Range` header of the request.
pub fn serve_blob(digest: &str, bytes: Vec<u8>, range: Option<&str>) -> (r: Result<BlobReply, DataError>)
    ensures
        ({
            let asked = parsed_range(
                match range {
                    Some(text) => Some(text@),
                    None => None,
                },
                bytes@.len() as usize,
            );
            match r {
                Ok(reply) => asked matches Ok(part) && reply@ == served(digest@, bytes@, part),
                Err(error) => asked matches Err(reason) && reason == error@,
            }
        }),
{
    let total: usize = bytes.len();
    match parse_byte_range(range, total) {
        Err(error) => Err(error),
        Ok(None) => Ok(
            BlobReply {
                status: 200,
                payload: bytes,
                content_range: None,
                range_digest: None,
                digest: digest.to_owned(),
            },
        ),
        Ok(Some((start, end))) => {
            let payload = part_of(&bytes, start, end);
            let part = concat4(
                "bytes ",
                decimal_text(start as u64).as_str(),
                "-",
                decimal_text((end - 1) as u64).as_str(),
            );
            let whole = concat2("/", decimal_text(total as u64).as_str());
            let range_digest = digest_of(&payload);
            Ok(
                BlobReply {
                    status: 206,
                    payload,
                    content_range: Some(concat2(part.as_str(), whole.as_str())),
                    range_digest: Some(range_digest),
                    digest: digest.to_owned(),
                },
            )
        },
    }
}

/// A character that stands neither in the one nor between is found at the start of the other.
proof fn lemma_position_after(s: Seq<char>, c: char, i: int, at: int)
    requires
        0 <= i <= at < s.len(),
        forall|j: int| i <= j < at ==> s[j] != c,
        s[at] == c,
    ensures
        position_from(s, c, i) == Some(at),
    decreases at - i,
{
    if i < at {
        lemma_position_after(s, c, i + 1, at);
    }
}

proof fn lemma_no_position(s: Seq<char>, c: char, i: int)
    requires
        0 <= i <= s.len(),
        forall|j: int| i <= j < s.len() ==> s[j] != c,
    ensures
        position_from(s, c, i) is None,
    decreases s.len() - i,
{
    if i < s.len() {
        lemma_no_position(s, c, i + 1);
    }
}

/// A range as another asks for it is understood, and refused where the object does not have it.
pub(crate) proof fn lemma_range_request(offset: u64, end: u64, total: usize)
    requires
        0 < end <= usize::MAX,
        offset <= usize::MAX,
    ensures
        offset < end <= total ==> parsed_range(Some(range_request(offset, end)), total) == Ok::<
            Option<(usize, usize)>,
            ApiErrorModel,
        >(Some((offset as usize, end as usize))),
        !(offset < end <= total) ==> (parsed_range(Some(range_request(offset, end)), total) matches Err(error)
            && error.status == 416),
{
    reveal_strlit("bytes=");
    reveal_strlit("-");
    let prefix = "bytes="@;
    let first = crate::text::decimal(offset as nat);
    let last = crate::text::decimal((end - 1) as nat);
    let header = range_request(offset, end);
    let range = first + "-"@ + last;
    let dash = first.len() as int;
    assert(header =~= prefix + range);
    assert(header.subrange(0, prefix.len() as int) =~= prefix);
    assert(header.skip(prefix.len() as int) =~= range);
    crate::text::lemma_decimal_reads_back(offset as nat);
    crate::text::lemma_decimal_reads_back((end - 1) as nat);
    assert forall|j: int| 0 <= j < range.len() implies range[j] != ',' && (j != dash ==> range[j] != '-') by {
        if j < dash {
            assert(crate::text::decimal_digit(first[j]));
        } else if j > dash {
            assert(crate::text::decimal_digit(last[j - dash - 1]));
        }
    }
    assert(range[dash] == '-');
    lemma_no_position(range, ',', 0);
    lemma_position_after(range, '-', 0, dash);
    assert(range.take(dash) =~= first);
    assert(range.skip(dash + 1) =~= last);
    crate::text::law_written_numbers_are_read_back(offset, usize::MAX as u64);
    crate::text::law_written_numbers_are_read_back((end - 1) as u64, usize::MAX as u64);
}

/// An agent that serves a blob understands the range that another asks for.
pub proof fn law_range_requests_are_understood(offset: u64, end: u64, total: usize)
    requires
        offset < end <= total,
    ensures
        parsed_range(Some(range_request(offset, end)), total) == Ok::<
            Option<(usize, usize)>,
            ApiErrorModel,
        >(Some((offset as usize, end as usize))),
{
    lemma_range_request(offset, end, total);
}

/// What is served for a range that was understood is the part, with the digest by which it can be
/// verified.
pub proof fn law_served_parts_can_be_verified(digest: Seq<char>, bytes: Seq<u8>, offset: u64, end: u64)
    requires
        offset < end <= bytes.len() <= usize::MAX,
    ensures
        ({
            let reply = served(digest, bytes, Some((offset as usize, end as usize)));
            &&& reply.status == 206
            &&& reply.payload.len() == end - offset
            &&& reply.range_digest == Some(crate::store::content_digest(reply.payload))
        }),
{
}

}
