# comfy_graph

The execution-graph model of the ComfyUI prompt format, verified with Verus.

- `src/json.rs`: JSON values with insertion-ordered objects; floats held by
  their bit pattern.
- `src/keyed.rs`: sequences of key/value entries, the model of an
  insertion-ordered map, and their lemmas.
- `src/collections.rs`: the `indexmap` maps and sets the tracker keeps its
  state in, each method behind a trusted wrapper whose contract speaks of the
  sequence of entries.
- `src/graph_utils.rs`: links, nodes, the graph builder and graph prefixes.
- `src/blocking.rs`: the blocking relation of the dependency tracker, the
  rounds in which nodes dissolve, and cycles.
- `src/graph.rs`: the dynamic prompt and the dependency tracker (topological
  sort, execution order, cycle detection).
- `tests/`: tests run against the compiled library.
- `app/`: a command-line front end (JSON parsing with serde_json, error
  display, process-wide prefix defaults) and, on Windows, the WinUI window.
