//! What holds of the parts of objects that are asked for and served.

use vstd::prelude::*;

use crate::coordinator_model::ApiErrorModel;
use crate::ids::{ObjectId, ResourceId, TaskId};
use crate::store::StoredModel;

verus! {

proof fn lemma_position(s: Seq<char>, c: char, i: int)
    requires
        0 <= i <= s.len(),
    ensures
        match crate::transfer::position_from(s, c, i) {
            Some(p) => i <= p < s.len() && s[p] == c && forall|j: int| i <= j < p ==> #[trigger] s[j] != c,
            None => forall|j: int| i <= j < s.len() ==> #[trigger] s[j] != c,
        },
    decreases s.len() - i,
{
    if i < s.len() && s[i] != c {
        lemma_position(s, c, i + 1);
    }
}

/// A header asks for the bytes between two numbers: for at least one byte, and for none that the
/// object does not have. What it asks for is what it says; the number behind the dash is that of the last
/// byte. Without a header the whole object is asked for, and with one never.
pub proof fn law_ranges_lie_within_the_object(text: Seq<char>, total: usize)
    ensures
        crate::transfer::parsed_range(None, total) == Ok::<Option<(usize, usize)>, ApiErrorModel>(None),
        match crate::transfer::parsed_range(Some(text), total) {
            Ok(None) => false,
            Ok(Some((start, end))) => {
                &&& start < end <= total
                &&& exists|first: Seq<char>, last: Seq<char>|
                    {
                        &&& text == #[trigger] ("bytes="@ + first + "-"@ + last)
                        &&& crate::text::parsed_number(first, usize::MAX as u64) == Some(start as u64)
                        &&& crate::text::parsed_number(last, usize::MAX as u64) == Some((end - 1) as u64)
                    }
            },
            Err(error) => error.status == 400 || error.status == 416,
        },
{
    if let Ok(Some((start, end))) = crate::transfer::parsed_range(Some(text), total) {
        reveal_strlit("bytes=");
        reveal_strlit("-");
        let range = crate::text::after_prefix(text, "bytes="@).unwrap();
        lemma_position(range, '-', 0);
        let dash = crate::transfer::position_from(range, '-', 0).unwrap();
        let first = range.take(dash);
        let last = range.skip(dash + 1);
        assert(range =~= first + "-"@ + last);
        assert(text =~= "bytes="@ + range);
        assert(text =~= "bytes="@ + first + "-"@ + last);
    }
}

/// A range that is well written is refused as outside the object just where it ends before it begins
/// or behind the last byte.
pub proof fn law_ranges_outside_are_refused(offset: u64, end: u64, total: usize)
    requires
        0 < end <= usize::MAX,
        offset <= usize::MAX,
    ensures
        crate::transfer::parsed_range(Some(crate::transfer::range_request(offset, end)), total) is Ok <==> offset
            < end <= total,
        !(offset < end <= total) ==> (crate::transfer::parsed_range(
            Some(crate::transfer::range_request(offset, end)),
            total,
        ) matches Err(error) && error.status == 416),
{
    crate::transfer::lemma_range_request(offset, end, total);
}

/// What is served of an object is just the bytes that were asked for, in their order, and all of them
/// where no part was asked for.
pub proof fn law_served_bytes_are_those_asked_for(
    digest: Seq<char>,
    bytes: Seq<u8>,
    start: usize,
    end: usize,
)
    requires
        start < end <= bytes.len(),
    ensures
        ({
            let whole = crate::transfer::served(digest, bytes, None);
            &&& whole.status == 200
            &&& whole.payload == bytes
            &&& whole.digest == digest
            &&& whole.content_range is None
        }),
        ({
            let part = crate::transfer::served(digest, bytes, Some((start, end)));
            &&& part.status == 206
            &&& part.digest == digest
            &&& part.payload.len() == end - start
            &&& forall|i: int| 0 <= i < end - start ==> #[trigger] part.payload[i] == bytes[start + i]
        }),
{
}

/// An object that was just stored is held where it was stored, under the digest and of the size that
/// it was stored with.
pub proof fn law_stored_objects_are_held(
    id: ObjectId,
    stored: StoredModel,
    resource_id: ResourceId,
    producer: Option<TaskId>,
    place: ResourceId,
)
    ensures
        ({
            let object = crate::transfer::described(id, stored, resource_id, producer);
            &&& object.id == id
            &&& object.digest == Some(stored.digest)
            &&& object.size_bytes == stored.size_bytes
            &&& object.producer == producer
            &&& object.locations.contains(place) <==> place == resource_id
        }),
{
    let held = crate::transfer::described(id, stored, resource_id, producer).locations;
    assert(held[0] == resource_id);
}

/// A digest can be looked up just where it is written as seven characters that name the algorithm and
/// sixty-four hexadecimal digits; they are what it is looked up by.
pub proof fn law_digests_are_looked_up_by_their_digits(digest: Seq<char>)
    ensures
        crate::store::addressed(digest) is Some <==> digest.len() == 71 && digest.take(7) == "sha256:"@ && forall|
            i: int,
        |
            7 <= i < 71 ==> crate::store::hex_character(#[trigger] digest[i]),
        crate::store::addressed(digest) matches Some(digits) ==> digits == digest.skip(7),
{
    reveal_strlit("sha256:");
    let digits = digest.skip(7);
    assert(digest.take(7) =~= digest.subrange(0, 7));
    if crate::store::addressed(digest) is Some {
        assert forall|i: int| 7 <= i < 71 implies crate::store::hex_character(#[trigger] digest[i]) by {
            assert(digits[i - 7] == digest[i]);
        }
    }
    if digest.len() == 71 && digest.take(7) == "sha256:"@ && forall|i: int|
        7 <= i < 71 ==> crate::store::hex_character(#[trigger] digest[i]) {
        assert forall|i: int| 0 <= i < digits.len() implies crate::store::hex_character(#[trigger] digits[i]) by {
            assert(digest[i + 7] == digits[i]);
        }
    }
}

}
