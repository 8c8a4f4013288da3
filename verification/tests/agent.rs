use plurifold::fetch::{want, FetchEvent, FetchReply, FetchStep, InputFetch, Span, Wanted};
use plurifold::ids::{ObjectId, ResourceId, TaskId};
use plurifold::objects::ObjectMetadata;
use plurifold::operations::{
    execute_builtin_operation, execute_task, pause_of, Execution, Progress,
};
use plurifold::protocol::{ObjectReplica, ResolvedObject};
use plurifold::resources::ResourceRequirements;
use plurifold::store::{digest_of, LocalObjectStore};
use plurifold::tasks::{
    CostHint, EffectSemantics, PipelineInput, TaskPipeline, TaskPipelineStage, TaskShard, TaskSpec,
};
use plurifold::transfer::{parse_byte_range, probe_payload, range_header, serve_blob};

fn builtin(artifact: &str, arguments: Vec<String>, shard: Option<TaskShard>) -> TaskSpec {
    TaskSpec {
        id: TaskId::new(),
        artifact: artifact.into(),
        entrypoint: "run".into(),
        arguments,
        inputs: vec![],
        requirements: ResourceRequirements::default(),
        effects: EffectSemantics::Pure,
        cost: CostHint::default(),
        shard,
        pipeline: None,
    }
}

#[test]
fn pipeline_keeps_intermediate_output_in_memory() {
    let task = TaskSpec {
        id: TaskId::new(),
        artifact: "plurifold:pipeline".into(),
        entrypoint: "run".into(),
        arguments: vec![],
        inputs: vec![],
        requirements: ResourceRequirements::default(),
        effects: EffectSemantics::Pure,
        cost: CostHint::default(),
        pipeline: Some(TaskPipeline {
            stages: vec![
                TaskPipelineStage {
                    artifact: "builtin:identity".into(),
                    entrypoint: "run".into(),
                    arguments: vec![],
                    inputs: vec![PipelineInput::External { index: 0 }],
                },
                TaskPipelineStage {
                    artifact: "builtin:concat".into(),
                    entrypoint: "run".into(),
                    arguments: vec![],
                    inputs: vec![
                        PipelineInput::PreviousOutput,
                        PipelineInput::External { index: 1 },
                    ],
                },
                TaskPipelineStage {
                    artifact: "builtin:concat".into(),
                    entrypoint: "run".into(),
                    arguments: vec![],
                    inputs: vec![
                        PipelineInput::PreviousOutput,
                        PipelineInput::External { index: 2 },
                    ],
                },
            ],
        }),
        shard: None,
    };

    let output = execute_task(
        &task,
        &vec![b"left".to_vec(), b"right".to_vec(), b"!".to_vec()],
    )
    .unwrap();
    assert_eq!(output, b"leftright!");
}

#[test]
fn shard_echo_observes_task_shard_context() {
    let task = builtin(
        "builtin:shard-echo",
        vec!["piece".into()],
        Some(TaskShard { index: 1, count: 3, partition: None }),
    );
    let output = execute_task(&task, &vec![]).unwrap();
    assert_eq!(output, b"piece:1:3");
}

#[test]
fn parses_single_http_byte_range() {
    assert_eq!(
        parse_byte_range(Some("bytes=2-5"), 10).ok(),
        Some(Some((2, 6)))
    );
}

fn resolved(digest: Option<String>, size_bytes: u64, urls: &[&str]) -> ResolvedObject {
    ResolvedObject {
        metadata: ObjectMetadata {
            id: ObjectId::new(),
            size_bytes,
            digest,
            encoding: None,
            locations: vec![],
            producer: None,
        },
        replicas: urls
            .iter()
            .map(|url| ObjectReplica { resource_id: ResourceId::new(), url: (*url).to_owned() })
            .collect(),
    }
}

#[test]
fn local_materialization_returns_only_requested_range() {
    let store = LocalObjectStore::new("/objects");
    let content = b"abcdefghij".to_vec();
    let stored = store.place(&content);
    let input = resolved(Some(stored.digest.clone()), 10, &[]);
    let (mut fetch, step) = InputFetch::start(&input, Some((3, 4)));
    assert_eq!(step, FetchStep::Look);
    let read = store.release(&stored.digest, content).map_err(|error| error.message());
    assert_eq!(
        fetch.advance(FetchEvent::Local(read)),
        FetchStep::Finished(Ok(b"defg".to_vec()))
    );
}

#[test]
fn corrupted_local_objects_are_not_taken() {
    let store = LocalObjectStore::new("/objects");
    let stored = store.place(&b"abc".to_vec());
    let found = store.place(&b"abd".to_vec());
    let input = resolved(Some(stored.digest.clone()), 3, &[]);
    let (mut fetch, _) = InputFetch::start(&input, None);
    assert_eq!(
        fetch.advance(FetchEvent::Local(Ok(b"abd".to_vec()))),
        FetchStep::Finished(Err(format!(
            "object digest mismatch: expected {}, got {}",
            stored.digest, found.digest
        )))
    );
}

#[test]
fn record_sum_and_u64_reduction_are_associative_over_complete_records() {
    let shard_task = builtin(
        "builtin:sum-records-u64",
        vec![],
        Some(TaskShard { index: 0, count: 2, partition: None }),
    );
    let left = execute_task(&shard_task, &vec![b"1\n20\n".to_vec()]).unwrap();
    let right = execute_task(&shard_task, &vec![b"300\n4\n".to_vec()]).unwrap();
    let reduction = builtin("builtin:sum-u64", vec![], None);
    let output = execute_task(&reduction, &vec![left, right]).unwrap();
    assert_eq!(u64::from_le_bytes(output.try_into().unwrap()), 325);
}

fn run(artifact: &str, arguments: &[&str], inputs: &[&[u8]], shard: Option<TaskShard>) -> Result<Vec<u8>, String> {
    execute_builtin_operation(
        artifact,
        &arguments.iter().map(|argument| (*argument).to_owned()).collect(),
        &inputs.iter().map(|input| input.to_vec()).collect(),
        &shard,
    )
}

fn refusal(artifact: &str, arguments: &[&str], inputs: &[&[u8]], shard: Option<TaskShard>) -> String {
    run(artifact, arguments, inputs, shard).unwrap_err()
}

const SECOND: Option<TaskShard> = Some(TaskShard { index: 1, count: 2, partition: None });

#[test]
fn records_may_be_summed_apart() {
    let parts: [&[u8]; 4] = [b"1\n 20 \n", b"", b"\n300\n", b"4000\n5"];
    let whole = parts.concat();
    let sum = run("builtin:sum-records-u64", &[], &[&whole], SECOND).unwrap();
    assert_eq!(sum, 4326u64.to_le_bytes().to_vec());
    let sums: Vec<Vec<u8>> = parts
        .iter()
        .map(|part| run("builtin:sum-records-u64", &[], &[part], SECOND).unwrap())
        .collect();
    let sums: Vec<&[u8]> = sums.iter().map(|sum| sum.as_slice()).collect();
    assert_eq!(run("builtin:sum-u64", &[], &sums, None), Ok(sum));

    let large = b"18446744073709551615\n";
    let largest = u64::MAX.to_le_bytes();
    assert_eq!(
        run("builtin:sum-records-u64", &[], &[large], SECOND),
        Ok(largest.to_vec())
    );
    assert_eq!(
        refusal("builtin:sum-u64", &[], &[&largest, &1u64.to_le_bytes()], None),
        "builtin:sum-u64 overflow"
    );
    assert_eq!(
        refusal("builtin:sum-records-u64", &[], &[b"18446744073709551615\n1\n"], SECOND),
        "builtin:sum-records-u64 overflow"
    );
}

#[test]
fn builtins_give_their_outputs() {
    assert_eq!(run("builtin:identity", &[], &[b"a", b"b"], None), Ok(b"a".to_vec()));
    assert_eq!(run("builtin:concat", &[], &[b"a", b"", b"bc"], None), Ok(b"abc".to_vec()));
    assert_eq!(run("builtin:echo", &["one", "two"], &[], None), Ok(b"one two".to_vec()));
    assert_eq!(run("builtin:shard-echo", &["x", "y"], &[], SECOND), Ok(b"x y:1:2".to_vec()));
    assert_eq!(run("builtin:shard-sleep", &["5"], &[], SECOND), Ok(b"shard:1:2".to_vec()));
    assert_eq!(run("builtin:shard-sleep", &["5", "z"], &[], SECOND), Ok(b"z:1:2".to_vec()));
    assert_eq!(run("builtin:shard-sleep-input", &["5"], &[b"in"], SECOND), Ok(b"in".to_vec()));
    assert_eq!(run("builtin:sleep", &["5"], &[], None), Ok(b"done".to_vec()));
    assert_eq!(run("builtin:sleep", &["5"], &[b"in"], None), Ok(b"in".to_vec()));
    assert_eq!(
        run("builtin:sum-records-u64", &[], &[b" 7 \r\n\n+8"], SECOND),
        Ok(15u64.to_le_bytes().to_vec())
    );
    assert_eq!(run("builtin:sum-u64", &["3"], &[], None), Ok(0u64.to_le_bytes().to_vec()));
}

#[test]
fn builtins_refuse_with_reasons() {
    assert_eq!(refusal("builtin:identity", &[], &[], None), "builtin:identity requires one input");
    assert_eq!(
        refusal("builtin:shard-echo", &[], &[], None),
        "builtin:shard-echo requires shard context"
    );
    assert_eq!(
        refusal("builtin:shard-sleep", &[], &[], SECOND),
        "builtin:shard-sleep requires milliseconds"
    );
    assert_eq!(
        refusal("builtin:shard-sleep", &["soon"], &[], SECOND),
        "builtin:shard-sleep milliseconds must be an integer"
    );
    assert_eq!(
        refusal("builtin:shard-sleep-input", &["1"], &[], SECOND),
        "builtin:shard-sleep-input requires one input"
    );
    assert_eq!(
        refusal("builtin:sum-records-u64", &[], &[b"1"], None),
        "builtin:sum-records-u64 requires shard context"
    );
    assert_eq!(
        refusal("builtin:sum-records-u64", &["x"], &[b"1"], SECOND),
        "builtin:sum-records-u64 optional milliseconds must be an integer"
    );
    assert_eq!(
        refusal("builtin:sum-records-u64", &[], &[], SECOND),
        "builtin:sum-records-u64 requires one input"
    );
    assert_eq!(
        refusal("builtin:sum-records-u64", &[], &[&[0xff, 0x31]], SECOND),
        "builtin:sum-records-u64 input must be UTF-8"
    );
    assert_eq!(
        refusal("builtin:sum-records-u64", &[], &[b"1\na\"b\n"], SECOND),
        "invalid u64 record \"a\\\"b\""
    );
    assert_eq!(
        refusal("builtin:sum-records-u64", &[], &[b"18446744073709551615\n1\n"], SECOND),
        "builtin:sum-records-u64 overflow"
    );
    assert_eq!(
        refusal("builtin:sum-u64", &[], &[b"1234567"], None),
        "builtin:sum-u64 inputs must be 8-byte little-endian u64 values"
    );
    assert_eq!(
        refusal("builtin:sum-u64", &[], &[&[0xff; 8], &[1, 0, 0, 0, 0, 0, 0, 0]], None),
        "builtin:sum-u64 overflow"
    );
    assert_eq!(
        refusal("builtin:sleep", &[], &[], None),
        "builtin:sleep requires milliseconds as its first argument"
    );
    assert_eq!(
        refusal("builtin:sleep", &["-1"], &[], None),
        "builtin:sleep milliseconds must be an integer"
    );
    assert_eq!(refusal("wasm:x", &[], &[], None), "unsupported artifact wasm:x");
}

#[test]
fn sums_may_be_regrouped() {
    let numbers: Vec<Vec<u8>> = [3u64, 5, 7, 11].iter().map(|n| n.to_le_bytes().to_vec()).collect();
    let all = execute_builtin_operation("builtin:sum-u64", &vec![], &numbers, &None).unwrap();
    let first =
        execute_builtin_operation("builtin:sum-u64", &vec![], &numbers[..1].to_vec(), &None).unwrap();
    let rest =
        execute_builtin_operation("builtin:sum-u64", &vec![], &numbers[1..].to_vec(), &None).unwrap();
    let both = execute_builtin_operation("builtin:sum-u64", &vec![], &vec![first, rest], &None);
    assert_eq!(both, Ok(all.clone()));
    assert_eq!(all, 26u64.to_le_bytes().to_vec());
}

#[test]
fn sleeps_are_left_to_the_caller() {
    assert_eq!(pause_of("builtin:sleep", &vec!["25".into()], &None), Some(25));
    assert_eq!(pause_of("builtin:shard-sleep", &vec!["25".into()], &None), None);
    assert_eq!(pause_of("builtin:echo", &vec!["25".into()], &None), None);
    let task = builtin("builtin:sleep", vec!["25".into()], None);
    let mut execution = Execution::start();
    assert_eq!(execution.advance(&task, &vec![]), Progress::Pause(25));
    assert_eq!(execution.advance(&task, &vec![]), Progress::Continue);
    assert_eq!(execution.advance(&task, &vec![]), Progress::Finished(Ok(b"done".to_vec())));
}

fn stage(artifact: &str, inputs: Vec<PipelineInput>) -> TaskPipelineStage {
    TaskPipelineStage {
        artifact: artifact.into(),
        entrypoint: "run".into(),
        arguments: vec![],
        inputs,
    }
}

#[test]
fn pipelines_with_missing_inputs_fail() {
    let mut task = builtin("plurifold:pipeline", vec![], None);
    task.pipeline = Some(TaskPipeline {
        stages: vec![
            stage("builtin:concat", vec![]),
            stage("builtin:concat", vec![PipelineInput::External { index: 2 }]),
        ],
    });
    assert_eq!(
        execute_task(&task, &vec![]),
        Err("pipeline input index 2 is out of range".to_owned())
    );
    task.pipeline = Some(TaskPipeline {
        stages: vec![
            stage("builtin:concat", vec![PipelineInput::PreviousOutput]),
            stage("builtin:concat", vec![]),
        ],
    });
    assert_eq!(
        execute_task(&task, &vec![]),
        Err("pipeline stage 0 references a missing previous output".to_owned())
    );
    task.pipeline = Some(TaskPipeline { stages: vec![stage("builtin:concat", vec![])] });
    assert_eq!(
        execute_task(&task, &vec![]),
        Err("task pipeline requires at least two stages".to_owned())
    );
}

#[test]
fn byte_ranges_are_read_or_refused() {
    assert_eq!(parse_byte_range(None, 10), Ok(None));
    assert_eq!(parse_byte_range(Some("bytes=0-9"), 10), Ok(Some((0, 10))));
    let refused = |text: &str| {
        let error = parse_byte_range(Some(text), 10).unwrap_err();
        (error.status, error.message)
    };
    assert_eq!(refused("items=0-1"), (400, "only byte ranges are supported".to_owned()));
    assert_eq!(
        refused("bytes=0-1,3-4"),
        (400, "multiple byte ranges are not supported".to_owned())
    );
    assert_eq!(refused("bytes=5"), (400, "invalid byte range".to_owned()));
    assert_eq!(refused("bytes=-5"), (400, "byte range start must be an integer".to_owned()));
    assert_eq!(refused("bytes=5-"), (400, "byte range end must be an integer".to_owned()));
    assert_eq!(refused("bytes=5-10"), (416, "byte range is outside the object".to_owned()));
    assert_eq!(refused("bytes=6-5"), (416, "byte range is outside the object".to_owned()));
}

#[test]
fn range_requests_are_understood() {
    assert_eq!(range_header(3, 7), "bytes=3-6");
    assert_eq!(parse_byte_range(Some(&range_header(3, 7)), 10), Ok(Some((3, 7))));
}

#[test]
fn served_parts_carry_their_own_digest() {
    let content = b"abcdefghij".to_vec();
    let digest = digest_of(&content);
    let part = serve_blob(&digest, content.clone(), Some("bytes=3-6")).unwrap();
    assert_eq!(part.status, 206);
    assert_eq!(part.payload, b"defg");
    assert_eq!(part.content_range.as_deref(), Some("bytes 3-6/10"));
    assert_eq!(part.range_digest, Some(digest_of(&b"defg".to_vec())));
    assert_eq!(part.digest, digest);
    let whole = serve_blob(&digest, content.clone(), None).unwrap();
    assert_eq!(whole.status, 200);
    assert_eq!(whole.payload, content);
    assert_eq!(whole.content_range, None);
    assert_eq!(whole.range_digest, None);
}

#[test]
fn probes_are_bounded() {
    assert_eq!(probe_payload(3), Ok(vec![0, 0, 0]));
    let error = probe_payload((1 << 20) + 1).unwrap_err();
    assert_eq!(error.status, 400);
    assert_eq!(error.message, "probe payload cannot exceed 1048576 bytes");
}

#[test]
fn wanted_parts_lie_within_the_object() {
    assert_eq!(want(10, None), Ok(Wanted::All));
    assert_eq!(want(10, Some((0, 10))), Ok(Wanted::All));
    assert_eq!(want(10, Some((4, 0))), Ok(Wanted::Nothing));
    assert_eq!(want(10, Some((4, 6))), Ok(Wanted::Part(Span { offset: 4, end: 10 })));
    assert_eq!(
        want(10, Some((4, 7))),
        Err("input byte range 4..11 exceeds object size 10".to_owned())
    );
    assert_eq!(want(10, Some((1, u64::MAX))), Err("input byte range overflows".to_owned()));
}

fn reply(status: u16, range_digest: Option<String>, body: &[u8]) -> FetchEvent {
    FetchEvent::Reply(FetchReply {
        status,
        status_text: format!("{status} X"),
        range_digest,
        body: Ok(body.to_vec()),
    })
}

fn ask(url: &str, range: Option<&str>) -> FetchStep {
    FetchStep::Ask { url: url.into(), range: range.map(|text| text.to_owned()) }
}

#[test]
fn replicas_are_asked_in_order_until_one_is_right() {
    let content = b"abcdefghij".to_vec();
    let input = resolved(Some(digest_of(&content)), 10, &["one", "two", "three"]);
    let (mut fetch, step) = InputFetch::start(&input, None);
    assert_eq!(step, FetchStep::Look);
    assert_eq!(fetch.advance(FetchEvent::Absent), ask("one", None));
    assert_eq!(fetch.advance(reply(503, None, b"")), ask("two", None));
    assert_eq!(fetch.advance(reply(200, None, b"tampered")), FetchStep::Keep);
    assert_eq!(fetch.advance(FetchEvent::Kept(Ok(()))), ask("three", None));
    assert_eq!(fetch.advance(reply(200, None, &content)), FetchStep::Keep);
    assert_eq!(fetch.advance(FetchEvent::Kept(Ok(()))), FetchStep::Announce);
    assert_eq!(
        fetch.advance(FetchEvent::Announced(Ok(()))),
        FetchStep::Finished(Ok(content))
    );
}

#[test]
fn the_last_reason_is_reported_when_no_replica_is_left() {
    let input = resolved(Some(digest_of(&b"x".to_vec())), 1, &["one"]);
    let (mut fetch, _) = InputFetch::start(&input, None);
    assert_eq!(fetch.advance(FetchEvent::Absent), ask("one", None));
    assert_eq!(
        fetch.advance(reply(503, None, b"")),
        FetchStep::Finished(Err("replica one returned 503 X".to_owned()))
    );
    let (mut alone, _) = InputFetch::start(&resolved(Some("d".into()), 1, &[]), None);
    assert_eq!(
        alone.advance(FetchEvent::Absent),
        FetchStep::Finished(Err("no replicas supplied".to_owned()))
    );
}

#[test]
fn parts_are_verified_but_not_kept() {
    let content = b"abcdefghij".to_vec();
    let input = resolved(Some(digest_of(&content)), 10, &["one", "two", "three", "four", "five"]);
    let (mut fetch, _) = InputFetch::start(&input, Some((3, 4)));
    let range = Some("bytes=3-6");
    let right = Some(digest_of(&b"defg".to_vec()));
    assert_eq!(fetch.advance(FetchEvent::Absent), ask("one", range));
    assert_eq!(fetch.advance(reply(200, right.clone(), b"defg")), ask("two", range));
    assert_eq!(fetch.advance(reply(206, None, b"defg")), ask("three", range));
    assert_eq!(fetch.advance(reply(206, right.clone(), b"def")), ask("four", range));
    assert_eq!(fetch.advance(reply(206, right.clone(), b"deff")), ask("five", range));
    assert_eq!(
        fetch.advance(reply(206, right, b"defg")),
        FetchStep::Finished(Ok(b"defg".to_vec()))
    );
}

#[test]
fn objects_without_digest_cannot_be_fetched() {
    let input = resolved(None, 10, &["one"]);
    let (_, step) = InputFetch::start(&input, None);
    assert_eq!(
        step,
        FetchStep::Finished(Err(format!("input {} has no digest", input.metadata.id.text())))
    );
}
