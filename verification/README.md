# joy

The nox warrior: it runs bracket-notation nox formulas, admits compiler jobs
and their results through a bounded schema reader, and checks the artifacts
that carry execution proofs.

`src/` is the verified library. Its modules:

- `noun`, `formula`, `program` — nouns, the bracket formula parser and
  printer, public-input subjects, and the bounded program parser.
- `schema`, `reader` — the compiler-job schema: records, complete-tree
  collections with canonical padding, little-endian byte words; writing and
  bounded, visit-charged reading, with the read-back laws.
- `digest` — the nox tree hash of a noun and its particle.
- `bindings` — the framed hemera preimages that bind proofs to programs.
- `limits`, `names`, `ordering`, `manifest` — host and job limits, identifier
  and path rules, byte order of texts, package manifest normalization.
- `job`, `job_result`, `job_laws` — packing and admitting JOB1 jobs,
  validating RES1 results, and the packing law.
- `warrior`, `artifacts`, `proof_artifact`, `run`, `commands`, `reports`,
  `file_input`, `publication` — the decisions around execution and proofs.
- `commands`, `build_request`, `reports` also hold the command-line requests
  (`run`, `prove`, `verify`, `build`, `run-artifact`, `pack`) as plain values;
  `app/` keeps copies of them that carry the argument-parser derives.

`app/` holds the command line and what touches the file system, threads and
the nox arena. `tests/` exercises the library on concrete values.
