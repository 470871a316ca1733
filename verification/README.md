# kokoro

A pluggable application framework, verified with Verus.

`src/` is the verified library:

- `event`, `query`: event identifiers, `is`, and event queries.
- `schedule`: the subscribers of a scope, their numbers and the events they subscribe to;
  which subscribers an event runs.
- `scope`: scope identifiers and the generator that numbers them.
- `thread`: the stop signal of a worker thread.
- `disposable`, `context`: disposal, and the disposals of a context.
- `later`, `manager`: the host grammar, import paths, the walk over a component's type
  tree that finds the function imports to bind, and making deferred bindings.
- `derive`: what the `Event` derive computes (the identifying text of a type, its hash, and
  the order of sorted fields).
- `text`: character-level helpers.

`app/` is the thread-safe framework around it: contexts and scopes shared between
threads, subscribers held as closures, plugins (static, dynamically loaded, and
WebAssembly components through wasmtime), the flume-driven event loop, and the code
generation of the derives.
