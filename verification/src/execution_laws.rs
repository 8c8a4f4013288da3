//! What holds of what tasks make of their inputs: which bytes an operation is given and which it puts
//! out, and how the stages of a task follow each other.

use vstd::bytes::*;
use vstd::prelude::*;
use vstd::utf8::*;

use crate::operations::ExecutionModel;
use crate::tasks::{PipelineInput, PipelineModel, StageModel, TaskModel, TaskShard};

verus! {

/// One more input stands behind the others, byte by byte, when they are put together.
pub proof fn law_inputs_stand_one_after_the_other(inputs: Seq<Seq<u8>>, last: Seq<u8>)
    ensures
        crate::operations::concatenated(Seq::empty(), 0).len() == 0,
        ({
            let before = crate::operations::concatenated(inputs, inputs.len());
            let all = crate::operations::concatenated(inputs.push(last), inputs.len() + 1);
            &&& all.len() == before.len() + last.len()
            &&& forall|i: int| 0 <= i < before.len() ==> #[trigger] all[i] == before[i]
            &&& forall|i: int| 0 <= i < last.len() ==> #[trigger] last[i] == all[before.len() + i]
        }),
{
    lemma_concatenated_prefix(inputs, last, inputs.len());
}

proof fn lemma_concatenated_prefix(inputs: Seq<Seq<u8>>, last: Seq<u8>, k: nat)
    requires
        k <= inputs.len(),
    ensures
        crate::operations::concatenated(inputs.push(last), k) == crate::operations::concatenated(inputs, k),
    decreases k,
{
    if k > 0 {
        lemma_concatenated_prefix(inputs, last, (k - 1) as nat);
    }
}

/// One more text stands behind the others with a space before it; the first stands alone.
pub proof fn law_texts_are_spaced(texts: Seq<Seq<char>>, last: Seq<char>)
    ensures
        crate::operations::spaced(seq![last], 1) == last,
        texts.len() > 0 ==> {
            let before = crate::operations::spaced(texts, texts.len());
            let all = crate::operations::spaced(texts.push(last), texts.len() + 1);
            &&& all.len() == before.len() + 1 + last.len()
            &&& all[before.len() as int] == ' '
            &&& forall|i: int| 0 <= i < before.len() ==> #[trigger] all[i] == before[i]
            &&& forall|i: int| 0 <= i < last.len() ==> #[trigger] last[i] == all[before.len() + 1 + i]
        },
{
    reveal_strlit(" ");
    lemma_spaced_prefix(texts, last, texts.len());
}

proof fn lemma_spaced_prefix(texts: Seq<Seq<char>>, last: Seq<char>, k: nat)
    requires
        k <= texts.len(),
    ensures
        crate::operations::spaced(texts.push(last), k) == crate::operations::spaced(texts, k),
    decreases k,
{
    if k > 1 {
        lemma_spaced_prefix(texts, last, (k - 1) as nat);
    }
}

/// The numbers in eight bytes each, the lowest first, added up.
pub open spec fn total(inputs: Seq<Seq<u8>>, k: nat) -> nat
    decreases k,
{
    if k == 0 {
        0
    } else {
        total(inputs, (k - 1) as nat) + spec_u64_from_le_bytes(inputs[k - 1]) as nat
    }
}

/// Numbers add up to their total: the sum is refused just where one of them is not written in eight
/// bytes or the total is too large to be.
pub proof fn law_sums_are_totals(inputs: Seq<Seq<u8>>, k: nat)
    requires
        k <= inputs.len(),
    ensures
        crate::operations::input_sum(inputs, k) is Ok <==> total(inputs, k) <= u64::MAX && forall|i: int|
            0 <= i < k ==> (#[trigger] inputs[i]).len() == 8,
        crate::operations::input_sum(inputs, k) matches Ok(sum) ==> sum == total(inputs, k),
    decreases k,
{
    if k > 0 {
        law_sums_are_totals(inputs, (k - 1) as nat);
    }
}

/// A single record, on a line of its own, adds the number that it spells; a blank one adds nothing, and
/// one that spells none is refused.
pub proof fn law_records_add_their_number(line: Seq<char>, sum: u64)
    requires
        forall|i: int| 0 <= i < line.len() ==> #[trigger] line[i] != '\n',
    ensures
        ({
            let inner = crate::text::trimmed(line);
            let added = crate::operations::record_sum(line, 0, sum);
            let spelled = crate::text::parsed_number(inner, u64::MAX);
            &&& inner.len() == 0 ==> added == Ok::<u64, Seq<char>>(sum)
            &&& inner.len() > 0 ==> (added is Ok <==> spelled is Some && sum + spelled.unwrap() <= u64::MAX)
            &&& inner.len() > 0 && added is Ok ==> added->Ok_0 == sum + spelled.unwrap()
        }),
{
    if line.len() > 0 {
        lemma_line_without_end(line, 0);
        assert(line.subrange(0, line.len() as int) =~= line);
        let end = crate::operations::line_end(line, 0);
        assert(crate::operations::record_sum(line, end + 1, sum) == Ok::<u64, Seq<char>>(sum));
        let inner = crate::text::trimmed(line);
        if let Some(value) = crate::text::parsed_number(inner, u64::MAX) {
            if sum + value <= u64::MAX {
                assert(crate::operations::record_sum(line, end + 1, (sum + value) as u64) == Ok::<u64, Seq<char>>(
                    (sum + value) as u64,
                ));
            }
        }
    }
}

proof fn lemma_line_without_end(line: Seq<char>, i: int)
    requires
        0 <= i <= line.len(),
        forall|j: int| 0 <= j < line.len() ==> #[trigger] line[j] != '\n',
    ensures
        crate::operations::line_end(line, i) == line.len(),
    decreases line.len() - i,
{
    if i < line.len() {
        lemma_line_without_end(line, i + 1);
    }
}

/// What a binding of a stage stands for: the input of the task that it names, or what the stage before
/// put out.
pub open spec fn stands_for(
    binding: PipelineInput,
    inputs: Seq<Seq<u8>>,
    previous: Option<Seq<u8>>,
    bytes: Seq<u8>,
) -> bool {
    match binding {
        PipelineInput::External { index } => index < inputs.len() && bytes == inputs[index as int],
        PipelineInput::PreviousOutput => previous == Some(bytes),
    }
}

/// A binding stands for nothing: the task has no such input, or no stage comes before.
pub open spec fn dangles(binding: PipelineInput, inputs: Seq<Seq<u8>>, previous: Option<Seq<u8>>) -> bool {
    match binding {
        PipelineInput::External { index } => index >= inputs.len(),
        PipelineInput::PreviousOutput => previous is None,
    }
}

/// A stage gets what its bindings stand for, one by one and in their order; it gets nothing only where
/// one of them stands for nothing.
pub proof fn law_stages_get_what_they_name(
    bindings: Seq<PipelineInput>,
    inputs: Seq<Seq<u8>>,
    previous: Option<Seq<u8>>,
    stage: nat,
    k: nat,
)
    requires
        k <= bindings.len(),
    ensures
        match crate::operations::stage_inputs(bindings, inputs, previous, stage, k) {
            Ok(gathered) => gathered.len() == k && forall|i: int|
                0 <= i < k ==> stands_for(#[trigger] bindings[i], inputs, previous, gathered[i]),
            Err(_) => exists|i: int|
                0 <= i < k && dangles(#[trigger] bindings[i], inputs, previous),
        },
    decreases k,
{
    if k > 0 {
        law_stages_get_what_they_name(bindings, inputs, previous, stage, (k - 1) as nat);
        match crate::operations::stage_inputs(bindings, inputs, previous, stage, (k - 1) as nat) {
            Err(_) => {},
            Ok(before) => {
                if crate::operations::stage_inputs(bindings, inputs, previous, stage, k) is Err {
                    assert(dangles(bindings[k - 1], inputs, previous));
                }
            },
        }
    }
}

/// What a stage does: its operation, with its arguments, on what it is given.
pub open spec fn does(
    stage: StageModel,
    inputs: Seq<Seq<u8>>,
    previous: Option<Seq<u8>>,
    shard: Option<TaskShard>,
    output: Seq<u8>,
) -> bool {
    exists|given: Seq<Seq<u8>>|
        {
            &&& given.len() == stage.inputs.len()
            &&& forall|i: int|
                0 <= i < given.len() ==> stands_for(#[trigger] stage.inputs[i], inputs, previous, given[i])
            &&& #[trigger] crate::operations::builtin_output(stage.artifact, stage.arguments, given, shard)
                == Ok::<Seq<u8>, Seq<char>>(output)
        }
}

/// What the stage before a given one put out; nothing stands before the first.
pub open spec fn before(outputs: Seq<Seq<u8>>, s: int) -> Option<Seq<u8>> {
    if s <= 0 {
        None
    } else {
        Some(outputs[s - 1])
    }
}

/// The stages of a pipeline do their work one after the other, each on what the one before it put out.
pub open spec fn done_in_turn(
    pipeline: PipelineModel,
    inputs: Seq<Seq<u8>>,
    shard: Option<TaskShard>,
    outputs: Seq<Seq<u8>>,
) -> bool {
    &&& outputs.len() == pipeline.stages.len()
    &&& forall|s: int|
        0 <= s < outputs.len() ==> does(
            #[trigger] pipeline.stages[s],
            inputs,
            before(outputs, s),
            shard,
            outputs[s],
        )
}

proof fn lemma_stages_in_turn(
    task: TaskModel,
    pipeline: PipelineModel,
    inputs: Seq<Seq<u8>>,
    done: Seq<Seq<u8>>,
) -> (outputs: Seq<Seq<u8>>)
    requires
        task.pipeline == Some(pipeline),
        done.len() <= pipeline.stages.len(),
        forall|s: int|
            0 <= s < done.len() ==> does(
                #[trigger] pipeline.stages[s],
                inputs,
                before(done, s),
                task.shard,
                done[s],
            ),
        crate::operations::output_from(task, inputs, done.len(), before(done, done.len() as int)) is Ok,
    ensures
        done_in_turn(pipeline, inputs, task.shard, outputs),
        outputs.len() > 1,
        crate::operations::output_from(task, inputs, done.len(), before(done, done.len() as int)) == Ok::<
            Seq<u8>,
            Seq<char>,
        >(outputs.last()),
    decreases pipeline.stages.len() - done.len(),
{
    let s = done.len() as int;
    let previous = before(done, s);
    if s >= pipeline.stages.len() {
        done
    } else {
        let stage = pipeline.stages[s];
        law_stages_get_what_they_name(stage.inputs, inputs, previous, s as nat, stage.inputs.len());
        let given = crate::operations::stage_inputs(
            stage.inputs,
            inputs,
            previous,
            s as nat,
            stage.inputs.len(),
        )->Ok_0;
        let output = crate::operations::builtin_output(stage.artifact, stage.arguments, given, task.shard)->Ok_0;
        assert(does(stage, inputs, previous, task.shard, output)) by {
            assert(crate::operations::builtin_output(stage.artifact, stage.arguments, given, task.shard) == Ok::<
                Seq<u8>,
                Seq<char>,
            >(output));
        }
        let longer = done.push(output);
        assert forall|t: int| 0 <= t < longer.len() implies does(
            #[trigger] pipeline.stages[t],
            inputs,
            before(longer, t),
            task.shard,
            longer[t],
        ) by {
            if t < s {
                assert(longer[t] == done[t]);
                assert(before(longer, t) == before(done, t));
            } else {
                assert(before(longer, t) == previous);
            }
        }
        assert(before(longer, longer.len() as int) == Some(output));
        lemma_stages_in_turn(task, pipeline, inputs, longer)
    }
}

/// A task of one operation puts out what the operation does. One of several stages puts out what the
/// last of them does, when they are done one after the other, each on what it names of the inputs and
/// on what the one before it put out; there are at least two.
pub proof fn law_stages_are_done_in_turn(task: TaskModel, inputs: Seq<Seq<u8>>)
    ensures
        task.pipeline is None ==> crate::operations::task_output(task, inputs)
            == crate::operations::builtin_output(task.artifact, task.arguments, inputs, task.shard),
        task.pipeline matches Some(pipeline) ==> (crate::operations::task_output(task, inputs) matches Ok(output)
            ==> exists|outputs: Seq<Seq<u8>>| #[trigger]
            done_in_turn(pipeline, inputs, task.shard, outputs) && outputs.len() > 1 && output == outputs.last()),
{
    match task.pipeline {
        None => {
            reveal_with_fuel(crate::operations::output_from, 2);
        },
        Some(pipeline) => {
            if crate::operations::task_output(task, inputs) is Ok {
                let outputs = lemma_stages_in_turn(task, pipeline, inputs, Seq::empty());
                assert(done_in_turn(pipeline, inputs, task.shard, outputs));
            }
        },
    }
}

/// An operation waits at most once, for as long as the first of its arguments says, and before it does
/// its work; what it does then does not depend on the wait.
pub proof fn law_operations_wait_once(task: TaskModel, inputs: Seq<Seq<u8>>, at: ExecutionModel)
    ensures
        ({
            let (next, progress) = at.advanced(task, inputs);
            &&& progress is Pause ==> {
                &&& !at.paused
                &&& next.stage == at.stage
                &&& next.previous == at.previous
                &&& !(next.advanced(task, inputs).1 is Pause)
                &&& next.advanced(task, inputs) == (ExecutionModel { paused: true, ..at }).advanced(task, inputs)
            }
            &&& progress is Continue ==> next.stage == at.stage + 1 && next.previous is Some && !next.paused
        }),
        forall|artifact: Seq<char>, arguments: Seq<Seq<char>>, shard: Option<TaskShard>|
            (#[trigger] crate::operations::builtin_pause(artifact, arguments, shard)) matches Some(wait)
                ==> arguments.len() > 0 && crate::text::parsed_number(arguments[0], u64::MAX) == Some(wait),
{
}

/// The builtin operations have names of their own.
proof fn lemma_names_differ()
    ensures
        "builtin:concat"@ != "builtin:identity"@,
        "builtin:echo"@ != "builtin:identity"@,
        "builtin:echo"@ != "builtin:concat"@,
        "builtin:shard-echo"@ != "builtin:identity"@,
        "builtin:shard-echo"@ != "builtin:concat"@,
        "builtin:shard-echo"@ != "builtin:echo"@,
        "builtin:sleep"@ != "builtin:identity"@,
        "builtin:sleep"@ != "builtin:concat"@,
        "builtin:sleep"@ != "builtin:echo"@,
        "builtin:sleep"@ != "builtin:shard-echo"@,
        "builtin:sleep"@ != "builtin:shard-sleep"@,
        "builtin:sleep"@ != "builtin:shard-sleep-input"@,
        "builtin:sleep"@ != "builtin:sum-records-u64"@,
        "builtin:sleep"@ != "builtin:sum-u64"@,
{
    reveal_strlit("builtin:identity");
    reveal_strlit("builtin:concat");
    reveal_strlit("builtin:echo");
    reveal_strlit("builtin:shard-echo");
    reveal_strlit("builtin:sleep");
    reveal_strlit("builtin:shard-sleep");
    reveal_strlit("builtin:shard-sleep-input");
    reveal_strlit("builtin:sum-records-u64");
    reveal_strlit("builtin:sum-u64");
    assert("builtin:concat"@[8] != "builtin:identity"@[8]);
    assert("builtin:echo"@[8] != "builtin:identity"@[8]);
    assert("builtin:echo"@[8] != "builtin:concat"@[8]);
    assert("builtin:shard-echo"@[8] != "builtin:identity"@[8]);
    assert("builtin:shard-echo"@[8] != "builtin:concat"@[8]);
    assert("builtin:shard-echo"@[8] != "builtin:echo"@[8]);
    assert("builtin:sleep"@[8] != "builtin:identity"@[8]);
    assert("builtin:sleep"@[8] != "builtin:concat"@[8]);
    assert("builtin:sleep"@[8] != "builtin:echo"@[8]);
    assert("builtin:sleep"@[9] != "builtin:shard-echo"@[9]);
    assert("builtin:sleep"@[9] != "builtin:shard-sleep"@[9]);
    assert("builtin:sleep"@[9] != "builtin:shard-sleep-input"@[9]);
    assert("builtin:sleep"@[9] != "builtin:sum-records-u64"@[9]);
    assert("builtin:sleep"@[9] != "builtin:sum-u64"@[9]);
}

/// What the operations without arithmetic do: one hands on its first input, one puts all of its inputs
/// together, one says its arguments, one says them for a shard, and one waits and then hands on its first
/// input, or says that it is done where it has none. None of them looks at another input.
pub proof fn law_operations_do_what_they_are_named_for(
    arguments: Seq<Seq<char>>,
    first: Seq<u8>,
    rest: Seq<Seq<u8>>,
    shard: Option<TaskShard>,
)
    ensures
        ({
            let inputs = seq![first] + rest;
            let none = Seq::<Seq<u8>>::empty();
            let timed = arguments.len() > 0 && crate::text::parsed_number(arguments[0], u64::MAX) is Some;
            let said = crate::operations::spaced(arguments, arguments.len());
            &&& crate::operations::builtin_output("builtin:identity"@, arguments, inputs, shard) == Ok::<
                Seq<u8>,
                Seq<char>,
            >(first)
            &&& crate::operations::builtin_output("builtin:identity"@, arguments, none, shard) is Err
            &&& crate::operations::builtin_output("builtin:concat"@, arguments, inputs, shard) == Ok::<
                Seq<u8>,
                Seq<char>,
            >(crate::operations::concatenated(inputs, inputs.len()))
            &&& crate::operations::builtin_output("builtin:echo"@, arguments, inputs, shard) == Ok::<
                Seq<u8>,
                Seq<char>,
            >(encode_utf8(said))
            &&& crate::operations::builtin_output("builtin:shard-echo"@, arguments, inputs, shard) == match shard {
                Some(part) => Ok::<Seq<u8>, Seq<char>>(
                    encode_utf8(
                        said + ":"@ + crate::text::decimal(part.index as nat) + ":"@ + crate::text::decimal(
                            part.count as nat,
                        ),
                    ),
                ),
                None => Err("builtin:shard-echo"@ + " requires shard context"@),
            }
            &&& timed ==> crate::operations::builtin_output("builtin:sleep"@, arguments, inputs, shard) == Ok::<
                Seq<u8>,
                Seq<char>,
            >(first)
            &&& timed ==> crate::operations::builtin_output("builtin:sleep"@, arguments, none, shard) == Ok::<
                Seq<u8>,
                Seq<char>,
            >(encode_utf8("done"@))
            &&& !timed ==> crate::operations::builtin_output("builtin:sleep"@, arguments, inputs, shard) is Err
        }),
{
    lemma_names_differ();
    let inputs = seq![first] + rest;
    assert(inputs[0] == first);
}

}
