# forall_toolkit

The verified core of the Forall authoring and hosted-verification toolkit.

`src/` holds the decisions, each with a contract that Verus proves:

- `schema`: the requirement mapping, the evidence ladder, mapping validation
  and verification summaries.
- `symbols`, `scan`, `contract`, `scaffold`: finding exported functions in
  TypeScript, Rust and Java sources, locating their bodies, and inserting
  contract clauses that are not there yet.
- `reinsertion`: what a second scaffolding of the same clauses does to the
  text a first one produced, for Java, TypeScript and Rust functions.
- `rescan`: how the source scanners behave when text is inserted after the
  point where they stop or before the point where they start.
- `discovery`: symbol discovery over a set of files and the choice of which
  project files are sources.
- `mutation`: planning a set of file writes against what the files hold now,
  with stale-content protection; project initialization.
- `requirements`: upserting requirements, linking property modules,
  validating a mapping against the project, project status.
- `paths`, `root`: lexical path handling and confinement to the project root.
- `snapshot`: which workspace files a verification snapshot takes, in which
  order, under which limits, and how they are named on the wire.
- `client`: which endpoints may receive the bearer token, how replies are
  read, and how the token is kept out of error messages.
- `wire`: the records of the hosted wire contract.

Calls into `regex`, `sha2`, `reqwest` (URL parsing and header checks) and
`String::from_utf8_lossy` go through small trusted wrappers whose contracts
are stated next to them.

`app/` is ordinary Rust around the library: file-system reads, walks and
atomic writes, YAML and JSON (de)serialization, and the async HTTP client.

`tests/` exercises the library on concrete values.
