//! The builtin operations, and tasks that run one of them or several in a row.

use vstd::bytes::*;
use vstd::prelude::*;
use vstd::string::*;
use vstd::utf8::*;

use crate::tasks::{PipelineInput, TaskModel, TaskShard, TaskSpec};
use crate::text::{
    chars_of, concat2, concat3, concat5, decimal_text, parse_digits, parse_number, same_text,
    trim_range,
};

verus! {

/// An outcome of plain values.
pub open spec fn plain_bytes(r: Result<Vec<u8>, String>) -> Result<Seq<u8>, Seq<char>> {
    match r {
        Ok(bytes) => Ok(bytes@),
        Err(message) => Err(message@),
    }
}

/// Calls `std::str::from_utf8`, which gives the text that bytes encode, if they are UTF-8.
#[verifier::external_body]
fn decode_text(bytes: &Vec<u8>) -> (text: Option<String>)
    ensures
        text is Some <==> valid_utf8(bytes@),
        text matches Some(decoded) ==> decoded@ == decode_utf8(bytes@),
{
    match std::str::from_utf8(bytes) {
        Ok(text) => Some(text.to_owned()),
        Err(_) => None,
    }
}

/// What the `Debug` of `str` makes of a text: the text in quotation marks, with escapes.
pub uninterp spec fn quoted(text: Seq<char>) -> Seq<char>;

/// Calls the `Debug` of `str`. The result is named `quoted`: it depends on the text alone.
#[verifier::external_body]
fn quote(text: &str) -> (r: String)
    ensures
        r@ == quoted(text@),
{
    format!("{:?}", text)
}

/// The first `k` texts, with a space between each two.
pub open spec fn spaced(texts: Seq<Seq<char>>, k: nat) -> Seq<char>
    decreases k,
{
    if k == 0 {
        Seq::empty()
    } else if k == 1 {
        texts[0]
    } else {
        spaced(texts, (k - 1) as nat) + " "@ + texts[k - 1]
    }
}

fn join_words(words: &Vec<String>) -> (r: String)
    ensures
        r@ == spaced(crate::text::views(words@), words@.len()),
{
    let ghost model = crate::text::views(words@);
    if words.len() == 0 {
        proof {
            reveal_strlit("");
        }
        let r = "".to_owned();
        assert(r@ =~= Seq::<char>::empty());
        return r;
    }
    assert(model[0] == words@[0]@);
    let mut text = words[0].clone();
    let mut k: usize = 1;
    while k < words.len()
        invariant
            1 <= k <= words@.len(),
            model == crate::text::views(words@),
            text@ == spaced(model, k as nat),
        decreases words@.len() - k,
    {
        assert(model[k as int] == words@[k as int]@);
        text = concat3(text.as_str(), " ", words[k].as_str());
        k = k + 1;
    }
    text
}

/// The first `k` inputs, one after the other.
pub open spec fn concatenated(inputs: Seq<Seq<u8>>, k: nat) -> Seq<u8>
    decreases k,
{
    if k == 0 {
        Seq::empty()
    } else {
        concatenated(inputs, (k - 1) as nat) + inputs[k - 1]
    }
}

fn append_bytes(bytes: &mut Vec<u8>, more: &Vec<u8>)
    ensures
        final(bytes)@ == old(bytes)@ + more@,
{
    let mut i: usize = 0;
    while i < more.len()
        invariant
            i <= more@.len(),
            bytes@ == old(bytes)@ + more@.take(i as int),
        decreases more@.len() - i,
    {
        bytes.push(more[i]);
        assert(more@.take(i + 1) =~= more@.take(i as int).push(more@[i as int]));
        i = i + 1;
    }
    assert(more@.take(more@.len() as int) =~= more@);
}

fn join_inputs(inputs: &Vec<Vec<u8>>) -> (r: Vec<u8>)
    ensures
        r@ == concatenated(crate::text::views(inputs@), inputs@.len()),
{
    let ghost model = crate::text::views(inputs@);
    let mut bytes: Vec<u8> = Vec::new();
    let mut k: usize = 0;
    while k < inputs.len()
        invariant
            k <= inputs@.len(),
            model == crate::text::views(inputs@),
            bytes@ == concatenated(model, k as nat),
        decreases inputs@.len() - k,
    {
        assert(model[k as int] == inputs@[k as int]@);
        append_bytes(&mut bytes, &inputs[k]);
        k = k + 1;
    }
    bytes
}

/// The end of the line that begins at `i`: the next line feed, or the end of the text.
pub open spec fn line_end(s: Seq<char>, i: int) -> int
    decreases s.len() - i,
{
    if i < 0 || i >= s.len() || s[i] == '\n' {
        i
    } else {
        line_end(s, i + 1)
    }
}

/// A line ends where it begins or later, at the end of the text at the latest.
pub proof fn lemma_line_end(s: Seq<char>, i: int)
    requires
        0 <= i <= s.len(),
    ensures
        i <= line_end(s, i) <= s.len(),
    decreases s.len() - i,
{
    if i < s.len() && s[i] != '\n' {
        lemma_line_end(s, i + 1);
    }
}

/// The sum of the numbers that stand, one on a line, from `start` on; blank lines do not count.
pub open spec fn record_sum(s: Seq<char>, start: int, sum: u64) -> Result<u64, Seq<char>>
    decreases s.len() - start + 1,
{
    if start < 0 || start >= s.len() {
        Ok(sum)
    } else {
        proof {
            lemma_line_end(s, start);
        }
        let end = line_end(s, start);
        let record = crate::text::trimmed(s.subrange(start, end));
        if record.len() == 0 {
            record_sum(s, end + 1, sum)
        } else {
            match crate::text::parsed_number(record, u64::MAX) {
                None => Err("invalid u64 record "@ + quoted(record)),
                Some(value) => if sum + value > u64::MAX {
                    Err("builtin:sum-records-u64 overflow"@)
                } else {
                    record_sum(s, end + 1, (sum + value) as u64)
                },
            }
        }
    }
}

fn sum_records(text: &str) -> (r: Result<u64, String>)
    ensures
        match r {
            Ok(sum) => record_sum(text@, 0, 0) == Ok::<u64, Seq<char>>(sum),
            Err(message) => record_sum(text@, 0, 0) == Err::<u64, Seq<char>>(message@),
        },
{
    let chars = chars_of(text);
    let n: usize = chars.len();
    let mut start: usize = 0;
    let mut sum: u64 = 0;
    while start < n
        invariant
            start <= n == text@.len(),
            chars@ == text@,
            record_sum(text@, 0, 0) == record_sum(text@, start as int, sum),
        decreases n - start,
    {
        let mut end: usize = start;
        while end < n && chars[end] != '\n'
            invariant
                start <= end <= n == text@.len(),
                chars@ == text@,
                line_end(text@, start as int) == line_end(text@, end as int),
            decreases n - end,
        {
            end = end + 1;
        }
        let (i, j) = trim_range(&chars, start, end);
        let ghost record = crate::text::trimmed(text@.subrange(start as int, end as int));
        if i < j {
            match parse_digits(&chars, i, j, u64::MAX) {
                None => {
                    let record = text.substring_char(i, j);
                    return Err(concat2("invalid u64 record ", quote(record).as_str()));
                },
                Some(value) => {
                    if value > u64::MAX - sum {
                        return Err("builtin:sum-records-u64 overflow".to_owned());
                    }
                    sum = sum + value;
                },
            }
        }
        if end == n {
            assert(record_sum(text@, end + 1, sum) == Ok::<u64, Seq<char>>(sum));
            return Ok(sum);
        }
        start = end + 1;
    }
    Ok(sum)
}

/// The sum of the first `k` inputs, each of which is a number in eight bytes, the lowest first.
pub open spec fn input_sum(inputs: Seq<Seq<u8>>, k: nat) -> Result<u64, Seq<char>>
    decreases k,
{
    if k == 0 {
        Ok(0)
    } else {
        match input_sum(inputs, (k - 1) as nat) {
            Err(message) => Err(message),
            Ok(sum) => if inputs[k - 1].len() != 8 {
                Err("builtin:sum-u64 inputs must be 8-byte little-endian u64 values"@)
            } else if sum + spec_u64_from_le_bytes(inputs[k - 1]) > u64::MAX {
                Err("builtin:sum-u64 overflow"@)
            } else {
                Ok((sum + spec_u64_from_le_bytes(inputs[k - 1])) as u64)
            },
        }
    }
}

proof fn lemma_input_sum_stays(inputs: Seq<Seq<u8>>, i: nat, k: nat)
    requires
        input_sum(inputs, i) is Err,
        i <= k,
    ensures
        input_sum(inputs, k) == input_sum(inputs, i),
    decreases k - i,
{
    if i < k {
        lemma_input_sum_stays(inputs, i, (k - 1) as nat);
    }
}

fn sum_inputs(inputs: &Vec<Vec<u8>>) -> (r: Result<u64, String>)
    ensures
        match r {
            Ok(sum) => input_sum(crate::text::views(inputs@), inputs@.len()) == Ok::<u64, Seq<char>>(sum),
            Err(message) => input_sum(crate::text::views(inputs@), inputs@.len()) == Err::<u64, Seq<char>>(
                message@,
            ),
        },
{
    let ghost model = crate::text::views(inputs@);
    let mut sum: u64 = 0;
    let mut k: usize = 0;
    while k < inputs.len()
        invariant
            k <= inputs@.len(),
            model == crate::text::views(inputs@),
            input_sum(model, k as nat) == Ok::<u64, Seq<char>>(sum),
        decreases inputs@.len() - k,
    {
        assert(model[k as int] == inputs@[k as int]@);
        if inputs[k].len() != 8 {
            proof {
                lemma_input_sum_stays(model, (k + 1) as nat, model.len());
            }
            return Err("builtin:sum-u64 inputs must be 8-byte little-endian u64 values".to_owned());
        }
        let value: u64 = u64_from_le_bytes(inputs[k].as_slice());
        if value > u64::MAX - sum {
            proof {
                lemma_input_sum_stays(model, (k + 1) as nat, model.len());
            }
            return Err("builtin:sum-u64 overflow".to_owned());
        }
        sum = sum + value;
        k = k + 1;
    }
    Ok(sum)
}

/// The milliseconds that an operation is told to wait, as the first of its arguments.
pub open spec fn told_to_wait(arguments: Seq<Seq<char>>) -> Option<u64> {
    if arguments.len() == 0 {
        None
    } else {
        crate::text::parsed_number(arguments[0], u64::MAX)
    }
}

/// An operation that needs to know which shard it works for, and how long to wait.
pub open spec fn sharded_wait_error(
    artifact: Seq<char>,
    arguments: Seq<Seq<char>>,
    shard: Option<TaskShard>,
) -> Option<Seq<char>> {
    if shard is None {
        Some(artifact + " requires shard context"@)
    } else if arguments.len() == 0 {
        Some(artifact + " requires milliseconds"@)
    } else if told_to_wait(arguments) is None {
        Some(artifact + " milliseconds must be an integer"@)
    } else {
        None
    }
}

/// An operation that may be told to wait, but need not be.
pub open spec fn optional_wait_error(artifact: Seq<char>, arguments: Seq<Seq<char>>) -> Option<Seq<char>> {
    if arguments.len() > 0 && told_to_wait(arguments) is None {
        Some(artifact + " optional milliseconds must be an integer"@)
    } else {
        None
    }
}

/// A label with the position of a shard.
pub open spec fn shard_label(label: Seq<char>, shard: TaskShard) -> Seq<char> {
    label + ":"@ + crate::text::decimal(shard.index as nat) + ":"@ + crate::text::decimal(
        shard.count as nat,
    )
}

/// What a builtin operation makes of its arguments and inputs.
pub open spec fn builtin_output(
    artifact: Seq<char>,
    arguments: Seq<Seq<char>>,
    inputs: Seq<Seq<u8>>,
    shard: Option<TaskShard>,
) -> Result<Seq<u8>, Seq<char>> {
    if artifact == "builtin:identity"@ {
        if inputs.len() > 0 {
            Ok(inputs[0])
        } else {
            Err("builtin:identity requires one input"@)
        }
    } else if artifact == "builtin:concat"@ {
        Ok(concatenated(inputs, inputs.len()))
    } else if artifact == "builtin:echo"@ {
        Ok(encode_utf8(spaced(arguments, arguments.len())))
    } else if artifact == "builtin:shard-echo"@ {
        match shard {
            None => Err(artifact + " requires shard context"@),
            Some(position) => Ok(
                encode_utf8(shard_label(spaced(arguments, arguments.len()), position)),
            ),
        }
    } else if artifact == "builtin:shard-sleep"@ {
        match sharded_wait_error(artifact, arguments, shard) {
            Some(message) => Err(message),
            None => Ok(
                encode_utf8(
                    shard_label(
                        if arguments.len() > 1 {
                            arguments[1]
                        } else {
                            "shard"@
                        },
                        shard.unwrap(),
                    ),
                ),
            ),
        }
    } else if artifact == "builtin:shard-sleep-input"@ {
        match sharded_wait_error(artifact, arguments, shard) {
            Some(message) => Err(message),
            None => if inputs.len() > 0 {
                Ok(inputs[0])
            } else {
                Err(artifact + " requires one input"@)
            },
        }
    } else if artifact == "builtin:sum-records-u64"@ {
        if shard is None {
            Err(artifact + " requires shard context"@)
        } else if optional_wait_error(artifact, arguments) is Some {
            Err(optional_wait_error(artifact, arguments).unwrap())
        } else if inputs.len() == 0 {
            Err(artifact + " requires one input"@)
        } else if !valid_utf8(inputs[0]) {
            Err(artifact + " input must be UTF-8"@)
        } else {
            match record_sum(decode_utf8(inputs[0]), 0, 0) {
                Ok(sum) => Ok(spec_u64_to_le_bytes(sum)),
                Err(message) => Err(message),
            }
        }
    } else if artifact == "builtin:sum-u64"@ {
        match optional_wait_error(artifact, arguments) {
            Some(message) => Err(message),
            None => match input_sum(inputs, inputs.len()) {
                Ok(sum) => Ok(spec_u64_to_le_bytes(sum)),
                Err(message) => Err(message),
            },
        }
    } else if artifact == "builtin:sleep"@ {
        if arguments.len() == 0 {
            Err("builtin:sleep requires milliseconds as its first argument"@)
        } else if told_to_wait(arguments) is None {
            Err("builtin:sleep milliseconds must be an integer"@)
        } else if inputs.len() > 0 {
            Ok(inputs[0])
        } else {
            Ok(encode_utf8("done"@))
        }
    } else {
        Err("unsupported artifact "@ + artifact)
    }
}

/// How long a builtin operation waits before it gives its output: only those that sleep do, and not
/// where what comes before the wait already refuses.
pub open spec fn builtin_pause(
    artifact: Seq<char>,
    arguments: Seq<Seq<char>>,
    shard: Option<TaskShard>,
) -> Option<u64> {
    if artifact == "builtin:shard-sleep"@ || artifact == "builtin:shard-sleep-input"@ || artifact
        == "builtin:sum-records-u64"@ {
        if shard is Some {
            told_to_wait(arguments)
        } else {
            None
        }
    } else if artifact == "builtin:sum-u64"@ || artifact == "builtin:sleep"@ {
        told_to_wait(arguments)
    } else {
        None
    }
}

fn wait_of(arguments: &Vec<String>) -> (r: Option<u64>)
    ensures
        r == told_to_wait(crate::text::views(arguments@)),
{
    if arguments.len() == 0 {
        None
    } else {
        assert(crate::text::views(arguments@)[0] == arguments@[0]@);
        parse_number(arguments[0].as_str(), u64::MAX)
    }
}

fn check_sharded_wait(artifact: &str, arguments: &Vec<String>, shard: &Option<TaskShard>) -> (r: Option<
    String,
>)
    ensures
        crate::text::view_of(r) == sharded_wait_error(
            artifact@,
            crate::text::views(arguments@),
            *shard,
        ),
{
    if shard.is_none() {
        Some(concat2(artifact, " requires shard context"))
    } else if arguments.len() == 0 {
        Some(concat2(artifact, " requires milliseconds"))
    } else if wait_of(arguments).is_none() {
        Some(concat2(artifact, " milliseconds must be an integer"))
    } else {
        None
    }
}

fn check_optional_wait(artifact: &str, arguments: &Vec<String>) -> (r: Option<String>)
    ensures
        crate::text::view_of(r) == optional_wait_error(artifact@, crate::text::views(arguments@)),
{
    if arguments.len() > 0 && wait_of(arguments).is_none() {
        Some(concat2(artifact, " optional milliseconds must be an integer"))
    } else {
        None
    }
}

fn label_shard(label: &str, shard: &TaskShard) -> (r: Vec<u8>)
    ensures
        r@ == encode_utf8(shard_label(label@, *shard)),
{
    let text = concat5(
        label,
        ":",
        decimal_text(shard.index as u64).as_str(),
        ":",
        decimal_text(shard.count as u64).as_str(),
    );
    text.as_str().as_bytes_vec()
}

/// Runs a builtin operation, but for its wait.
pub fn execute_builtin_operation(
    artifact: &str,
    arguments: &Vec<String>,
    inputs: &Vec<Vec<u8>>,
    shard: &Option<TaskShard>,
) -> (r: Result<Vec<u8>, String>)
    ensures
        plain_bytes(r) == builtin_output(
            artifact@,
            crate::text::views(arguments@),
            crate::text::views(inputs@),
            *shard,
        ),
{
    let ghost words = crate::text::views(arguments@);
    let ghost data = crate::text::views(inputs@);
    if same_text(artifact, "builtin:identity") {
        if inputs.len() > 0 {
            assert(data[0] == inputs@[0]@);
            Ok(inputs[0].clone())
        } else {
            Err("builtin:identity requires one input".to_owned())
        }
    } else if same_text(artifact, "builtin:concat") {
        Ok(join_inputs(inputs))
    } else if same_text(artifact, "builtin:echo") {
        Ok(join_words(arguments).as_str().as_bytes_vec())
    } else if same_text(artifact, "builtin:shard-echo") {
        match shard {
            None => Err(concat2(artifact, " requires shard context")),
            Some(position) => Ok(label_shard(join_words(arguments).as_str(), position)),
        }
    } else if same_text(artifact, "builtin:shard-sleep") {
        match (check_sharded_wait(artifact, arguments, shard), shard) {
            (Some(message), _) => Err(message),
            (None, Some(position)) => if arguments.len() > 1 {
                assert(words[1] == arguments@[1]@);
                Ok(label_shard(arguments[1].as_str(), position))
            } else {
                Ok(label_shard("shard", position))
            },
            (None, None) => Err(concat2(artifact, " requires shard context")),
        }
    } else if same_text(artifact, "builtin:shard-sleep-input") {
        match check_sharded_wait(artifact, arguments, shard) {
            Some(message) => Err(message),
            None => if inputs.len() > 0 {
                assert(data[0] == inputs@[0]@);
                Ok(inputs[0].clone())
            } else {
                Err(concat2(artifact, " requires one input"))
            },
        }
    } else if same_text(artifact, "builtin:sum-records-u64") {
        if shard.is_none() {
            return Err(concat2(artifact, " requires shard context"));
        }
        if let Some(message) = check_optional_wait(artifact, arguments) {
            return Err(message);
        }
        if inputs.len() == 0 {
            return Err(concat2(artifact, " requires one input"));
        }
        assert(data[0] == inputs@[0]@);
        match decode_text(&inputs[0]) {
            None => Err(concat2(artifact, " input must be UTF-8")),
            Some(text) => match sum_records(text.as_str()) {
                Ok(sum) => Ok(u64_to_le_bytes(sum)),
                Err(message) => Err(message),
            },
        }
    } else if same_text(artifact, "builtin:sum-u64") {
        if let Some(message) = check_optional_wait(artifact, arguments) {
            return Err(message);
        }
        match sum_inputs(inputs) {
            Ok(sum) => Ok(u64_to_le_bytes(sum)),
            Err(message) => Err(message),
        }
    } else if same_text(artifact, "builtin:sleep") {
        if arguments.len() == 0 {
            Err("builtin:sleep requires milliseconds as its first argument".to_owned())
        } else if wait_of(arguments).is_none() {
            Err("builtin:sleep milliseconds must be an integer".to_owned())
        } else if inputs.len() > 0 {
            assert(data[0] == inputs@[0]@);
            Ok(inputs[0].clone())
        } else {
            Ok("done".as_bytes_vec())
        }
    } else {
        Err(concat2("unsupported artifact ", artifact))
    }
}

/// How long a builtin operation is to wait before it gives its output.
pub fn pause_of(artifact: &str, arguments: &Vec<String>, shard: &Option<TaskShard>) -> (r: Option<u64>)
    ensures
        r == builtin_pause(artifact@, crate::text::views(arguments@), *shard),
{
    if same_text(artifact, "builtin:shard-sleep") || same_text(artifact, "builtin:shard-sleep-input")
        || same_text(artifact, "builtin:sum-records-u64") {
        if shard.is_some() {
            wait_of(arguments)
        } else {
            None
        }
    } else if same_text(artifact, "builtin:sum-u64") || same_text(artifact, "builtin:sleep") {
        wait_of(arguments)
    } else {
        None
    }
}

/// The first `k` inputs of a stage: those of the task that it names, and the output of the stage
/// before it.
pub open spec fn stage_inputs(
    bindings: Seq<PipelineInput>,
    inputs: Seq<Seq<u8>>,
    previous: Option<Seq<u8>>,
    stage: nat,
    k: nat,
) -> Result<Seq<Seq<u8>>, Seq<char>>
    decreases k,
{
    if k == 0 {
        Ok(Seq::empty())
    } else {
        match stage_inputs(bindings, inputs, previous, stage, (k - 1) as nat) {
            Err(message) => Err(message),
            Ok(before) => match bindings[k - 1] {
                PipelineInput::External { index } => if index < inputs.len() {
                    Ok(before.push(inputs[index as int]))
                } else {
                    Err(
                        "pipeline input index "@ + crate::text::decimal(index as nat)
                            + " is out of range"@,
                    )
                },
                PipelineInput::PreviousOutput => match previous {
                    Some(bytes) => Ok(before.push(bytes)),
                    None => Err(
                        "pipeline stage "@ + crate::text::decimal(stage)
                            + " references a missing previous output"@,
                    ),
                },
            },
        }
    }
}

proof fn lemma_stage_inputs_stay(
    bindings: Seq<PipelineInput>,
    inputs: Seq<Seq<u8>>,
    previous: Option<Seq<u8>>,
    stage: nat,
    i: nat,
    k: nat,
)
    requires
        stage_inputs(bindings, inputs, previous, stage, i) is Err,
        i <= k,
    ensures
        stage_inputs(bindings, inputs, previous, stage, k) == stage_inputs(
            bindings,
            inputs,
            previous,
            stage,
            i,
        ),
    decreases k - i,
{
    if i < k {
        lemma_stage_inputs_stay(bindings, inputs, previous, stage, i, (k - 1) as nat);
    }
}

fn gather_inputs(
    bindings: &Vec<PipelineInput>,
    inputs: &Vec<Vec<u8>>,
    previous: &Option<Vec<u8>>,
    stage: usize,
) -> (r: Result<Vec<Vec<u8>>, String>)
    ensures
        match r {
            Ok(gathered) => stage_inputs(
                bindings@,
                crate::text::views(inputs@),
                crate::text::view_of(*previous),
                stage as nat,
                bindings@.len(),
            ) == Ok::<Seq<Seq<u8>>, Seq<char>>(crate::text::views(gathered@)),
            Err(message) => stage_inputs(
                bindings@,
                crate::text::views(inputs@),
                crate::text::view_of(*previous),
                stage as nat,
                bindings@.len(),
            ) == Err::<Seq<Seq<u8>>, Seq<char>>(message@),
        },
{
    let ghost data = crate::text::views(inputs@);
    let ghost before_it = crate::text::view_of(*previous);
    let mut gathered: Vec<Vec<u8>> = Vec::new();
    let mut k: usize = 0;
    assert(crate::text::views(gathered@) =~= Seq::<Seq<u8>>::empty());
    while k < bindings.len()
        invariant
            k <= bindings@.len(),
            data == crate::text::views(inputs@),
            before_it == crate::text::view_of(*previous),
            stage_inputs(bindings@, data, before_it, stage as nat, k as nat) == Ok::<
                Seq<Seq<u8>>,
                Seq<char>,
            >(crate::text::views(gathered@)),
        decreases bindings@.len() - k,
    {
        let ghost before = crate::text::views(gathered@);
        match bindings[k] {
            PipelineInput::External { index } => {
                if index >= inputs.len() {
                    let message = concat3(
                        "pipeline input index ",
                        decimal_text(index as u64).as_str(),
                        " is out of range",
                    );
                    proof {
                        lemma_stage_inputs_stay(
                            bindings@,
                            data,
                            before_it,
                            stage as nat,
                            (k + 1) as nat,
                            bindings@.len(),
                        );
                    }
                    return Err(message);
                }
                assert(data[index as int] == inputs@[index as int]@);
                let copy = inputs[index].clone();
                gathered.push(copy);
                assert(crate::text::views(gathered@) =~= before.push(data[index as int]));
            },
            PipelineInput::PreviousOutput => {
                match previous {
                    Some(bytes) => {
                        let copy = bytes.clone();
                        gathered.push(copy);
                        assert(crate::text::views(gathered@) =~= before.push(bytes@));
                    },
                    None => {
                        let message = concat3(
                            "pipeline stage ",
                            decimal_text(stage as u64).as_str(),
                            " references a missing previous output",
                        );
                        proof {
                            lemma_stage_inputs_stay(
                                bindings@,
                                data,
                                before_it,
                                stage as nat,
                                (k + 1) as nat,
                                bindings@.len(),
                            );
                        }
                        return Err(message);
                    },
                }
            },
        }
        k = k + 1;
    }
    Ok(gathered)
}

/// What there is to do at a stage of a task.
pub enum WorkModel {
    /// Nothing more: this is how it ended.
    Over(Result<Seq<u8>, Seq<char>>),
    /// A builtin operation.
    Operation { artifact: Seq<char>, arguments: Seq<Seq<char>>, inputs: Seq<Seq<u8>> },
}

/// How many stages a task has.
pub open spec fn stage_count(task: TaskModel) -> nat {
    match task.pipeline {
        Some(pipeline) => pipeline.stages.len(),
        None => 1,
    }
}

/// What there is to do at a stage of a task, given what the stage before it has put out.
pub open spec fn work_at(
    task: TaskModel,
    inputs: Seq<Seq<u8>>,
    stage: nat,
    previous: Option<Seq<u8>>,
) -> WorkModel {
    if task.pipeline is Some && stage_count(task) < 2 {
        WorkModel::Over(Err("task pipeline requires at least two stages"@))
    } else if stage >= stage_count(task) {
        WorkModel::Over(
            match previous {
                Some(bytes) => Ok(bytes),
                None => Err("task pipeline produced no output"@),
            },
        )
    } else {
        match task.pipeline {
            None => WorkModel::Operation { artifact: task.artifact, arguments: task.arguments, inputs },
            Some(pipeline) => {
                let current = pipeline.stages[stage as int];
                match stage_inputs(
                    current.inputs,
                    inputs,
                    previous,
                    stage,
                    current.inputs.len(),
                ) {
                    Err(message) => WorkModel::Over(Err(message)),
                    Ok(gathered) => WorkModel::Operation {
                        artifact: current.artifact,
                        arguments: current.arguments,
                        inputs: gathered,
                    },
                }
            },
        }
    }
}

/// How a task ends from a stage on: each operation works on what the one before it put out.
pub open spec fn output_from(
    task: TaskModel,
    inputs: Seq<Seq<u8>>,
    stage: nat,
    previous: Option<Seq<u8>>,
) -> Result<Seq<u8>, Seq<char>>
    decreases stage_count(task) - stage,
{
    match work_at(task, inputs, stage, previous) {
        WorkModel::Over(outcome) => outcome,
        WorkModel::Operation { artifact, arguments, inputs: gathered } => match builtin_output(
            artifact,
            arguments,
            gathered,
            task.shard,
        ) {
            Err(message) => Err(message),
            Ok(bytes) => if stage >= stage_count(task) {
                Ok(bytes)
            } else {
                output_from(task, inputs, stage + 1, Some(bytes))
            },
        },
    }
}

/// What a task makes of its inputs.
pub open spec fn task_output(task: TaskModel, inputs: Seq<Seq<u8>>) -> Result<Seq<u8>, Seq<char>> {
    output_from(task, inputs, 0, None)
}

/// How far a task has come.
#[derive(Debug, PartialEq)]
pub struct Execution {
    pub stage: usize,
    pub previous: Option<Vec<u8>>,
    /// The wait of the operation at this stage is over.
    pub paused: bool,
}

pub struct ExecutionModel {
    pub stage: nat,
    pub previous: Option<Seq<u8>>,
    pub paused: bool,
}

impl View for Execution {
    type V = ExecutionModel;

    open spec fn view(&self) -> ExecutionModel {
        ExecutionModel {
            stage: self.stage as nat,
            previous: crate::text::view_of(self.previous),
            paused: self.paused,
        }
    }
}

/// What is to be done next for a task to come on.
#[derive(Debug, PartialEq)]
pub enum Progress {
    /// Wait for some milliseconds, and go on.
    Pause(u64),
    /// Go on.
    Continue,
    Finished(Result<Vec<u8>, String>),
}

pub enum ProgressModel {
    Pause(u64),
    Continue,
    Finished(Result<Seq<u8>, Seq<char>>),
}

impl View for Progress {
    type V = ProgressModel;

    open spec fn view(&self) -> ProgressModel {
        match self {
            Progress::Pause(ms) => ProgressModel::Pause(*ms),
            Progress::Continue => ProgressModel::Continue,
            Progress::Finished(r) => ProgressModel::Finished(plain_bytes(*r)),
        }
    }
}

impl ExecutionModel {
    pub open spec fn start() -> ExecutionModel {
        ExecutionModel { stage: 0, previous: None, paused: false }
    }

    /// The next step of a task, and where it leads.
    pub open spec fn advanced(self, task: TaskModel, inputs: Seq<Seq<u8>>) -> (ExecutionModel, ProgressModel) {
        match work_at(task, inputs, self.stage, self.previous) {
            WorkModel::Over(outcome) => (self, ProgressModel::Finished(outcome)),
            WorkModel::Operation { artifact, arguments, inputs: gathered } => {
                let pause = builtin_pause(artifact, arguments, task.shard);
                if !self.paused && pause is Some {
                    (
                        ExecutionModel { paused: true, ..self },
                        ProgressModel::Pause(pause.unwrap()),
                    )
                } else {
                    match builtin_output(artifact, arguments, gathered, task.shard) {
                        Err(message) => (self, ProgressModel::Finished(Err(message))),
                        Ok(bytes) => (
                            ExecutionModel {
                                stage: self.stage + 1,
                                previous: Some(bytes),
                                paused: false,
                            },
                            ProgressModel::Continue,
                        ),
                    }
                }
            },
        }
    }
}

/// What there is to do at a stage of a task.
enum Work {
    Over(Result<Vec<u8>, String>),
    Operation { artifact: String, arguments: Vec<String>, inputs: Vec<Vec<u8>> },
}

impl View for Work {
    type V = WorkModel;

    closed spec fn view(&self) -> WorkModel {
        match self {
            Work::Over(outcome) => WorkModel::Over(plain_bytes(*outcome)),
            Work::Operation { artifact, arguments, inputs } => WorkModel::Operation {
                artifact: artifact@,
                arguments: crate::text::views(arguments@),
                inputs: crate::text::views(inputs@),
            },
        }
    }
}

fn copy_inputs(inputs: &Vec<Vec<u8>>) -> (r: Vec<Vec<u8>>)
    ensures
        crate::text::views(r@) == crate::text::views(inputs@),
{
    let mut copies: Vec<Vec<u8>> = Vec::new();
    let mut i: usize = 0;
    while i < inputs.len()
        invariant
            i <= inputs@.len(),
            copies@.len() == i,
            forall|j: int| 0 <= j < i ==> (#[trigger] copies@[j])@ == inputs@[j]@,
        decreases inputs@.len() - i,
    {
        copies.push(inputs[i].clone());
        i = i + 1;
    }
    assert(crate::text::views(copies@) =~= crate::text::views(inputs@));
    copies
}

fn find_work(task: &TaskSpec, inputs: &Vec<Vec<u8>>, stage: usize, previous: &Option<Vec<u8>>) -> (r: Work)
    ensures
        r@ == work_at(
            task@,
            crate::text::views(inputs@),
            stage as nat,
            crate::text::view_of(*previous),
        ),
        r@ is Operation ==> stage < usize::MAX,
{
    let count: usize = match &task.pipeline {
        Some(pipeline) => pipeline.stages.len(),
        None => 1,
    };
    if task.pipeline.is_some() && count < 2 {
        return Work::Over(Err("task pipeline requires at least two stages".to_owned()));
    }
    if stage >= count {
        return Work::Over(
            match previous {
                Some(bytes) => Ok(bytes.clone()),
                None => Err("task pipeline produced no output".to_owned()),
            },
        );
    }
    match &task.pipeline {
        None => {
            let arguments = task.arguments.clone();
            assert(crate::text::views(arguments@) =~= task@.arguments);
            Work::Operation {
                artifact: task.artifact.clone(),
                arguments,
                inputs: copy_inputs(inputs),
            }
        },
        Some(pipeline) => {
            let current = &pipeline.stages[stage];
            assert(task@.pipeline.unwrap().stages[stage as int] == current@);
            match gather_inputs(&current.inputs, inputs, previous, stage) {
                Err(message) => Work::Over(Err(message)),
                Ok(gathered) => {
                    let arguments = current.arguments.clone();
                    assert(crate::text::views(arguments@) =~= current@.arguments);
                    Work::Operation {
                        artifact: current.artifact.clone(),
                        arguments,
                        inputs: gathered,
                    }
                },
            }
        },
    }
}

impl Execution {
    pub fn start() -> (r: Execution)
        ensures
            r@ == ExecutionModel::start(),
    {
        Execution { stage: 0, previous: None, paused: false }
    }

    /// Takes the next step of a task; a wait is left to the caller.
    pub fn advance(&mut self, task: &TaskSpec, inputs: &Vec<Vec<u8>>) -> (r: Progress)
        ensures
            (final(self)@, r@) == old(self)@.advanced(task@, crate::text::views(inputs@)),
    {
        match find_work(task, inputs, self.stage, &self.previous) {
            Work::Over(outcome) => Progress::Finished(outcome),
            Work::Operation { artifact, arguments, inputs: gathered } => {
                if !self.paused {
                    if let Some(ms) = pause_of(artifact.as_str(), &arguments, &task.shard) {
                        self.paused = true;
                        return Progress::Pause(ms);
                    }
                }
                match execute_builtin_operation(
                    artifact.as_str(),
                    &arguments,
                    &gathered,
                    &task.shard,
                ) {
                    Err(message) => Progress::Finished(Err(message)),
                    Ok(bytes) => {
                        self.stage = self.stage + 1;
                        self.previous = Some(bytes);
                        self.paused = false;
                        Progress::Continue
                    },
                }
            },
        }
    }
}

/// A step does not change how a task ends, and what ends it is that.
pub proof fn law_steps_lead_to_the_output(task: TaskModel, inputs: Seq<Seq<u8>>, at: ExecutionModel)
    ensures
        ({
            let (next, progress) = at.advanced(task, inputs);
            match progress {
                ProgressModel::Finished(outcome) => outcome == output_from(
                    task,
                    inputs,
                    at.stage,
                    at.previous,
                ),
                _ => output_from(task, inputs, next.stage, next.previous) == output_from(
                    task,
                    inputs,
                    at.stage,
                    at.previous,
                ),
            }
        }),
{
}

/// Runs a task to its end, without its waits.
pub fn execute_task(task: &TaskSpec, inputs: &Vec<Vec<u8>>) -> (r: Result<Vec<u8>, String>)
    ensures
        plain_bytes(r) == task_output(task@, crate::text::views(inputs@)),
{
    let ghost data = crate::text::views(inputs@);
    let mut execution = Execution::start();
    let count: usize = match &task.pipeline {
        Some(pipeline) => pipeline.stages.len(),
        None => 1,
    };
    loop
        invariant
            data == crate::text::views(inputs@),
            count == stage_count(task@),
            execution.stage <= count,
            output_from(task@, data, execution@.stage, execution@.previous) == task_output(task@, data),
        decreases
                2 * (count - execution.stage) + if execution.paused {
                    0int
                } else {
                    1int
                },
    {
        proof {
            law_steps_lead_to_the_output(task@, data, execution@);
        }
        match execution.advance(task, inputs) {
            Progress::Finished(outcome) => {
                return outcome;
            },
            _ => {},
        }
    }
}

/// Sums of one list, and of that list with the first part of another.
proof fn lemma_sum_of_both(xs: Seq<Seq<u8>>, ys: Seq<Seq<u8>>, k: nat)
    requires
        k <= ys.len(),
        input_sum(xs, xs.len()) is Ok,
        input_sum(ys, k) is Ok,
    ensures
        ({
            let a = input_sum(xs, xs.len())->Ok_0;
            let b = input_sum(ys, k)->Ok_0;
            input_sum(xs + ys, xs.len() + k) == if a + b > u64::MAX {
                Err::<u64, Seq<char>>("builtin:sum-u64 overflow"@)
            } else {
                Ok::<u64, Seq<char>>((a + b) as u64)
            }
        }),
    decreases k,
{
    let both = xs + ys;
    if k == 0 {
        lemma_sum_of_prefix(xs, ys, xs.len());
    } else {
        assert(both[xs.len() + k - 1] == ys[k - 1]);
        lemma_sum_of_both(xs, ys, (k - 1) as nat);
    }
}

proof fn lemma_sum_of_prefix(xs: Seq<Seq<u8>>, ys: Seq<Seq<u8>>, k: nat)
    requires
        k <= xs.len(),
    ensures
        input_sum(xs + ys, k) == input_sum(xs, k),
    decreases k,
{
    if k > 0 {
        assert((xs + ys)[k - 1] == xs[k - 1]);
        lemma_sum_of_prefix(xs, ys, (k - 1) as nat);
    }
}

/// Sums may be regrouped: summing two lists of numbers apart, and then the two sums, comes to the
/// same as summing all at once.
pub proof fn law_sums_may_be_regrouped(
    xs: Seq<Seq<u8>>,
    ys: Seq<Seq<u8>>,
    first: Seq<u8>,
    second: Seq<u8>,
)
    requires
        builtin_output("builtin:sum-u64"@, Seq::empty(), xs, None) == Ok::<Seq<u8>, Seq<char>>(first),
        builtin_output("builtin:sum-u64"@, Seq::empty(), ys, None) == Ok::<Seq<u8>, Seq<char>>(second),
    ensures
        builtin_output("builtin:sum-u64"@, Seq::empty(), seq![first, second], None) == builtin_output(
            "builtin:sum-u64"@,
            Seq::empty(),
            xs + ys,
            None,
        ),
{
    lemma_builtin_names_differ();
    lemma_auto_spec_u64_to_from_le_bytes();
    let a = input_sum(xs, xs.len())->Ok_0;
    let b = input_sum(ys, ys.len())->Ok_0;
    let partial = seq![first, second];
    assert(first == spec_u64_to_le_bytes(a) && second == spec_u64_to_le_bytes(b));
    lemma_sum_of_both(xs, ys, ys.len());
    assert(partial[0] == first && partial[1] == second);
    assert(input_sum(partial, 0) == Ok::<u64, Seq<char>>(0));
    assert(input_sum(partial, 1) == Ok::<u64, Seq<char>>(a));
    assert(input_sum(partial, 2) == if a + b > u64::MAX {
        Err::<u64, Seq<char>>("builtin:sum-u64 overflow"@)
    } else {
        Ok::<u64, Seq<char>>((a + b) as u64)
    });
    assert((xs + ys).len() == xs.len() + ys.len());
}

/// The sum of numbers is not named like another operation.
pub proof fn lemma_builtin_names_differ()
    ensures
        "builtin:sum-u64"@ != "builtin:identity"@,
        "builtin:sum-u64"@ != "builtin:concat"@,
        "builtin:sum-u64"@ != "builtin:echo"@,
        "builtin:sum-u64"@ != "builtin:shard-echo"@,
        "builtin:sum-u64"@ != "builtin:shard-sleep"@,
        "builtin:sum-u64"@ != "builtin:shard-sleep-input"@,
        "builtin:sum-u64"@ != "builtin:sum-records-u64"@,
{
    reveal_strlit("builtin:sum-u64");
    reveal_strlit("builtin:identity");
    reveal_strlit("builtin:concat");
    reveal_strlit("builtin:echo");
    reveal_strlit("builtin:shard-echo");
    reveal_strlit("builtin:shard-sleep");
    reveal_strlit("builtin:shard-sleep-input");
    reveal_strlit("builtin:sum-records-u64");
    assert("builtin:sum-u64"@[8] != "builtin:identity"@[8]);
    assert("builtin:sum-u64"@[8] != "builtin:concat"@[8]);
    assert("builtin:sum-u64"@[8] != "builtin:echo"@[8]);
    assert("builtin:sum-u64"@[9] != "builtin:shard-echo"@[9]);
    assert("builtin:sum-u64"@[9] != "builtin:shard-sleep"@[9]);
    assert("builtin:sum-u64"@[9] != "builtin:shard-sleep-input"@[9]);
    assert("builtin:sum-u64"@.len() != "builtin:sum-records-u64"@.len());
}

/// The sum of records is not named like another operation.
pub proof fn lemma_record_sum_name_differs()
    ensures
        "builtin:sum-records-u64"@ != "builtin:identity"@,
        "builtin:sum-records-u64"@ != "builtin:concat"@,
        "builtin:sum-records-u64"@ != "builtin:echo"@,
        "builtin:sum-records-u64"@ != "builtin:shard-echo"@,
        "builtin:sum-records-u64"@ != "builtin:shard-sleep"@,
        "builtin:sum-records-u64"@ != "builtin:shard-sleep-input"@,
{
    reveal_strlit("builtin:identity");
    reveal_strlit("builtin:concat");
    reveal_strlit("builtin:echo");
    reveal_strlit("builtin:shard-echo");
    reveal_strlit("builtin:shard-sleep");
    reveal_strlit("builtin:shard-sleep-input");
    reveal_strlit("builtin:sum-records-u64");
    assert("builtin:sum-records-u64"@[8] != "builtin:identity"@[8]);
    assert("builtin:sum-records-u64"@[8] != "builtin:concat"@[8]);
    assert("builtin:sum-records-u64"@[8] != "builtin:echo"@[8]);
    assert("builtin:sum-records-u64"@[9] != "builtin:shard-echo"@[9]);
    assert("builtin:sum-records-u64"@[9] != "builtin:shard-sleep"@[9]);
    assert("builtin:sum-records-u64"@[9] != "builtin:shard-sleep-input"@[9]);
}

}
