# Vortex

Vortex runs WebAssembly services behind a small dispatcher.

- The dispatcher accepts connections, recognises requests by peeking at them,
  fetches the module of the service that is asked for, and assigns the work to a
  runner process.
- A runner executes invocations and writes their logs to `/tmp/vortex`.

The rules by which both go about it are a verified library. What touches sockets,
processes, object stores or a WebAssembly engine is ordinary Rust around it.

## Layout

- `src/network/`: HTTP requests (`http_connection`), HPACK header blocks (`hpack`)
  with their Huffman code (`huffman`, `bits`), and the admission of connections
  (`server`)
- `src/service/`: runner processes and what is sent to them (`process`), where an
  invocation goes (`controller`), and how a request is handled (`orchestrator`)
- `src/runner/`: the other end of the control socket (`control`), the request body
  (`request`), the cache of compiled components (`module_cache`), the stages of a
  run (`wasm_run`), logs and responses (`invocation`), and what is signalled to the
  dispatcher (`serving`)
- `src/storage/`, `src/wasm/`: keys, records and errors of the storage, the paths of
  objects, and where modules are fetched from
- `src/wire.rs`, `src/module_queue.rs`, `src/text.rs`: what several of these share
- `src/guest.rs`: the example module, which fetches a URL
- `app/`: the programs
- `tests/`: the tests

Properties that span functions stand as proof functions whose names begin with
`law_`. What is taken on trust from other crates and from the standard library is
marked `external_body` or `assume_specification`, each with a comment that says what
is claimed.

## Running

The program starts under the name `runner` as a runner, under the name `example` as
the example module, and under any other name as the dispatcher, which listens on
port 8080. `VORTEX_RUNNER_BIN` points it at the runner.
