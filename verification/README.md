# plurifold

A runtime for elastic heterogeneous computing across weakly connected resources. Tasks, objects and
jobs are described without saying where they run; placement, planning and leasing take topology, data
locality, capabilities and failure into account. Resources may join and leave at any time.

The library in `src/` holds every decision of the runtime and is verified with Verus. It does no I/O:
the current time, the bytes of objects and the replies of peers are arguments of its functions.

| Modules | What they decide |
|---|---|
| `binary64` | IEEE 754 arithmetic on bit patterns, in which every cost is computed |
| `ids`, `clock`, `collections`, `text` | identities, time, ordered maps, text |
| `resources`, `topology`, `objects`, `tasks`, `jobs`, `status`, `protocol` | the data that is exchanged |
| `scheduler` | what a task costs on a resource, and where it goes |
| `shards`, `reduction` | how the work of a role is divided, and how its contributions are brought together |
| `fusion`, `chains` | which roles of a chain run as one task |
| `role_graph`, `validation` | which tasks and jobs are accepted |
| `planner`, `reduction_plan` | the preview of a whole job |
| `fabric`, `fabric_model` | membership, leases, commits, and the progress of jobs |
| `coordinator`, `coordinator_model` | what the coordinator answers |
| `operations` | the builtin operations and pipelines of them |
| `store`, `transfer`, `fetch` | content-addressed blobs, byte ranges, and how an input is fetched |
| `worker` | what an agent does next |

Each type that carries data has a mathematical model, reached by `@`; contracts are stated over the
models. The modules that end in `_laws`, and the functions whose names begin with `law_`, state what
holds across functions: that commits are conditional, that fan-in keeps the order of the shards, that
fusion keeps the output, that the cheapest way through a chain is found.

What is taken on trust stands in functions marked `external_body`: random and textual UUIDs (`uuid`),
SHA-256 (`sha2`), hexadecimal text (`hex`), the clock, UTF-8 decoding and the quoting of text (`std`).

`app/` is the program around the library: the HTTP services, the file store, the agent loop and the
command line. `tests/` runs the library on concrete values.
