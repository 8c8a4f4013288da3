//! What holds of the builtin operations across parts: whole records may be summed apart.

use vstd::bytes::*;
use vstd::prelude::*;
use vstd::utf8::*;

use crate::tasks::TaskShard;

verus! {

/// Bytes of whole records: none, or such that end with a line feed.
pub open spec fn whole_records(bytes: Seq<u8>) -> bool {
    bytes.len() == 0 || bytes.last() == 10
}

/// Texts are decoded apart as they are together.
proof fn lemma_decode_both(a: Seq<u8>, b: Seq<u8>)
    requires
        valid_utf8(a),
        valid_utf8(b),
    ensures
        valid_utf8(a + b),
        decode_utf8(a + b) == decode_utf8(a) + decode_utf8(b),
{
    let both = a + b;
    let at = a.len() as int;
    valid_utf8_concat(a, b);
    is_char_boundary_start_end_of_seq(both);
    if b.len() > 0 {
        assert(both[at] == b[0]);
        assert(valid_first_scalar(b));
        is_char_boundary_iff_not_is_continuation_byte(both, at);
    }
    decode_utf8_split(both, at);
    assert(both.subrange(0, at) =~= a);
    assert(both.subrange(at, both.len() as int) =~= b);
}

/// The text of whole records ends with a line feed.
proof fn lemma_decode_whole_records(bytes: Seq<u8>)
    requires
        valid_utf8(bytes),
        bytes.len() > 0,
        bytes.last() == 10,
    ensures
        decode_utf8(bytes).len() > 0,
        decode_utf8(bytes).last() == '\n',
{
    let at = bytes.len() - 1;
    let feed = seq![10u8];
    is_char_boundary_iff_not_is_continuation_byte(bytes, at);
    decode_utf8_split(bytes, at);
    valid_utf8_split(bytes, at);
    assert(bytes.subrange(at, bytes.len() as int) =~= feed);
    assert(decode_utf8(feed) =~= seq!['\n']) by {
        reveal_with_fuel(decode_utf8, 2);
        assert(10u8 & 0x7f == 10) by (bit_vector);
        assert(decode_first_scalar(feed) == 10);
        assert(pop_first_scalar(feed) =~= Seq::<u8>::empty());
    }
}

proof fn lemma_line_end_in_both(s: Seq<char>, t: Seq<char>, i: int)
    requires
        s.len() > 0,
        s.last() == '\n',
        0 <= i < s.len(),
    ensures
        i <= crate::operations::line_end(s, i) < s.len(),
        crate::operations::line_end(s + t, i) == crate::operations::line_end(s, i),
    decreases s.len() - i,
{
    assert((s + t)[i] == s[i]);
    if s[i] != '\n' {
        lemma_line_end_in_both(s, t, i + 1);
    }
}

proof fn lemma_line_end_shifted(s: Seq<char>, t: Seq<char>, i: int)
    requires
        0 <= i <= t.len(),
    ensures
        crate::operations::line_end(s + t, s.len() + i) == s.len() + crate::operations::line_end(t, i),
    decreases t.len() - i,
{
    if i < t.len() {
        assert((s + t)[s.len() + i] == t[i]);
        if t[i] != '\n' {
            lemma_line_end_shifted(s, t, i + 1);
        }
    }
}

/// After the records of a text that ends with a line feed come those of the text that follows.
proof fn lemma_sum_goes_on(s: Seq<char>, t: Seq<char>, start: int, sum: u64)
    requires
        s.len() > 0,
        s.last() == '\n',
        0 <= start <= s.len(),
        crate::operations::record_sum(s, start, sum) is Ok,
    ensures
        crate::operations::record_sum(s + t, start, sum) == crate::operations::record_sum(
            s + t,
            s.len() as int,
            crate::operations::record_sum(s, start, sum)->Ok_0,
        ),
    decreases s.len() - start,
{
    if start < s.len() {
        let both = s + t;
        lemma_line_end_in_both(s, t, start);
        let end = crate::operations::line_end(s, start);
        assert(both.subrange(start, end) =~= s.subrange(start, end));
        let record = crate::text::trimmed(s.subrange(start, end));
        if record.len() == 0 {
            lemma_sum_goes_on(s, t, end + 1, sum);
        } else {
            let value = crate::text::parsed_number(record, u64::MAX).unwrap();
            lemma_sum_goes_on(s, t, end + 1, (sum + value) as u64);
        }
    }
}

/// Records count as much behind another text as they do alone.
proof fn lemma_sum_shifted(s: Seq<char>, t: Seq<char>, start: int, sum: u64)
    requires
        0 <= start,
    ensures
        crate::operations::record_sum(s + t, s.len() + start, sum) == crate::operations::record_sum(
            t,
            start,
            sum,
        ),
    decreases t.len() - start + 1,
{
    if start < t.len() {
        let both = s + t;
        lemma_line_end_shifted(s, t, start);
        crate::operations::lemma_line_end(t, start);
        let end = crate::operations::line_end(t, start);
        assert(both.subrange(s.len() + start, s.len() + end) =~= t.subrange(start, end));
        let record = crate::text::trimmed(t.subrange(start, end));
        if record.len() == 0 {
            lemma_sum_shifted(s, t, end + 1, sum);
        } else if let Some(value) = crate::text::parsed_number(record, u64::MAX) {
            if sum + value <= u64::MAX {
                lemma_sum_shifted(s, t, end + 1, (sum + value) as u64);
            }
        }
    }
}

/// Records add as much to one sum as to another, as long as it does not overflow.
proof fn lemma_sum_from_elsewhere(t: Seq<char>, start: int, sum: u64, other: u64)
    requires
        0 <= start,
        crate::operations::record_sum(t, start, sum) is Ok,
    ensures
        crate::operations::record_sum(t, start, sum)->Ok_0 >= sum,
        crate::operations::record_sum(t, start, other) == ({
            let total = other + (crate::operations::record_sum(t, start, sum)->Ok_0 - sum);
            if total > u64::MAX {
                Err::<u64, Seq<char>>("builtin:sum-records-u64 overflow"@)
            } else {
                Ok::<u64, Seq<char>>(total as u64)
            }
        }),
    decreases t.len() - start + 1,
{
    if start < t.len() {
        crate::operations::lemma_line_end(t, start);
        let end = crate::operations::line_end(t, start);
        let record = crate::text::trimmed(t.subrange(start, end));
        if record.len() == 0 {
            lemma_sum_from_elsewhere(t, end + 1, sum, other);
        } else {
            let value = crate::text::parsed_number(record, u64::MAX).unwrap();
            if other + value <= u64::MAX {
                lemma_sum_from_elsewhere(t, end + 1, (sum + value) as u64, (other + value) as u64);
            } else {
                lemma_sum_from_elsewhere(t, end + 1, (sum + value) as u64, 0);
            }
        }
    }
}

/// What stops the sum of the records of a text that ends with a line feed stops it where more follow.
proof fn lemma_refusal_goes_on(s: Seq<char>, t: Seq<char>, start: int, sum: u64)
    requires
        s.len() > 0,
        s.last() == '\n',
        0 <= start <= s.len(),
        crate::operations::record_sum(s, start, sum) is Err,
    ensures
        crate::operations::record_sum(s + t, start, sum) is Err,
    decreases s.len() - start,
{
    let both = s + t;
    lemma_line_end_in_both(s, t, start);
    let end = crate::operations::line_end(s, start);
    assert(both.subrange(start, end) =~= s.subrange(start, end));
    let record = crate::text::trimmed(s.subrange(start, end));
    if record.len() == 0 {
        lemma_refusal_goes_on(s, t, end + 1, sum);
    } else if let Some(value) = crate::text::parsed_number(record, u64::MAX) {
        if sum + value <= u64::MAX {
            lemma_refusal_goes_on(s, t, end + 1, (sum + value) as u64);
        }
    }
}

/// The sums of two texts of which the first has whole records.
proof fn lemma_sum_of_both(a: Seq<u8>, b: Seq<u8>)
    requires
        valid_utf8(a),
        valid_utf8(b),
        whole_records(a),
        crate::operations::record_sum(decode_utf8(b), 0, 0) is Ok,
    ensures
        valid_utf8(a + b),
        match crate::operations::record_sum(decode_utf8(a), 0, 0) {
            Err(_) => crate::operations::record_sum(decode_utf8(a + b), 0, 0) is Err,
            Ok(x) => {
                let total = x + crate::operations::record_sum(decode_utf8(b), 0, 0)->Ok_0;
                if total > u64::MAX {
                    crate::operations::record_sum(decode_utf8(a + b), 0, 0) is Err
                } else {
                    crate::operations::record_sum(decode_utf8(a + b), 0, 0) == Ok::<u64, Seq<char>>(
                        total as u64,
                    )
                }
            },
        },
{
    let s = decode_utf8(a);
    let t = decode_utf8(b);
    lemma_decode_both(a, b);
    if a.len() > 0 {
        lemma_decode_whole_records(a);
        if crate::operations::record_sum(s, 0, 0) is Err {
            lemma_refusal_goes_on(s, t, 0, 0);
        } else {
            lemma_sum_goes_on(s, t, 0, 0);
        }
    } else {
        assert(s =~= Seq::<char>::empty());
    }
    if let Ok(x) = crate::operations::record_sum(s, 0, 0) {
        lemma_sum_shifted(s, t, 0, x);
        lemma_sum_from_elsewhere(t, 0, 0, x);
    }
}

/// The sums of parts of a text, as they are handed on.
pub open spec fn summed_apart(parts: Seq<Seq<u8>>, sums: Seq<Seq<u8>>, shards: Seq<TaskShard>) -> bool {
    &&& parts.len() == sums.len()
    &&& parts.len() == shards.len()
    &&& forall|i: int|
        0 <= i < parts.len() ==> crate::operations::builtin_output(
            "builtin:sum-records-u64"@,
            Seq::empty(),
            seq![#[trigger] parts[i]],
            Some(shards[i]),
        ) == Ok::<Seq<u8>, Seq<char>>(sums[i])
}

proof fn lemma_sums_of_parts(parts: Seq<Seq<u8>>, sums: Seq<Seq<u8>>, shards: Seq<TaskShard>, k: nat)
    requires
        summed_apart(parts, sums, shards),
        forall|i: int| 0 <= i < parts.len() - 1 ==> whole_records(#[trigger] parts[i]),
        k <= parts.len(),
    ensures
        valid_utf8(crate::operations::concatenated(parts, k)),
        k < parts.len() ==> whole_records(crate::operations::concatenated(parts, k)),
        match crate::operations::record_sum(
            decode_utf8(crate::operations::concatenated(parts, k)),
            0,
            0,
        ) {
            Ok(sum) => crate::operations::input_sum(sums, k) == Ok::<u64, Seq<char>>(sum),
            Err(_) => crate::operations::input_sum(sums, k) is Err,
        },
    decreases k,
{
    if k == 0 {
        assert(decode_utf8(Seq::<u8>::empty()) =~= Seq::<char>::empty());
    } else {
        crate::operations::lemma_builtin_names_differ();
        crate::operations::lemma_record_sum_name_differs();
        lemma_auto_spec_u64_to_from_le_bytes();
        lemma_sums_of_parts(parts, sums, shards, (k - 1) as nat);
        let before = crate::operations::concatenated(parts, (k - 1) as nat);
        let part = parts[k - 1];
        assert(seq![part][0] == part);
        lemma_sum_of_both(before, part);
        if k < parts.len() {
            assert(whole_records(part));
            if part.len() > 0 {
                assert((before + part).last() == part.last());
            } else {
                assert(before + part =~= before);
            }
        }
    }
}

/// Whole records may be summed apart: the sums of the parts of a text, added up, are the sum of the
/// text; and where that is too large, it is so either way. Only the last part may end within a line.
pub proof fn law_record_sums_add_up(
    parts: Seq<Seq<u8>>,
    sums: Seq<Seq<u8>>,
    shards: Seq<TaskShard>,
    whole: TaskShard,
)
    requires
        summed_apart(parts, sums, shards),
        forall|i: int| 0 <= i < parts.len() - 1 ==> whole_records(#[trigger] parts[i]),
    ensures
        ({
            let together = crate::operations::builtin_output(
                "builtin:sum-records-u64"@,
                Seq::empty(),
                seq![crate::operations::concatenated(parts, parts.len())],
                Some(whole),
            );
            let added = crate::operations::builtin_output(
                "builtin:sum-u64"@,
                Seq::empty(),
                sums,
                None,
            );
            &&& together matches Ok(sum) ==> added == Ok::<Seq<u8>, Seq<char>>(sum)
            &&& added is Ok ==> together is Ok
        }),
{
    crate::operations::lemma_builtin_names_differ();
    crate::operations::lemma_record_sum_name_differs();
    lemma_sums_of_parts(parts, sums, shards, parts.len());
    let all = crate::operations::concatenated(parts, parts.len());
    assert(seq![all][0] == all);
}

}
