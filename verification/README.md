# kern

A local knowledge base over Markdown: files are cut into chunks, embedded and
indexed, and what they say of entities and their relations grows into an
ontology that agents can query over MCP.

The library under `src/` holds the rules, each with a contract that Verus
proves:

- text and paths: `text`, `words`, `order`, `offsets`, `paths`
- identifiers, time and hashes: `ids`, `supply`, `clock`, `hashing`
- the corpus: `chunker`, `known`, `scan`, `watch`, and the laws of a whole scan
  in `scan_laws`
- the ontology: `records`, `registry`, `graph`, `reach`, `engine`, `chunk_run`,
  `frontmatter`, `learning`, `profiles`, `ingest`, `metrics`, `embedding_cache`,
  `scores`, `rows`, and its laws in `graph_laws`, `registry_laws`,
  `engine_laws`, `ingest_laws`
- search and the agents' tools: `search`, `tools`
- models, setup and running: `model`, `setup`, `config`, `projects`, `runtime`

`app/` is the program around it: the command line, HTTP to model backends, the
SQLite database, the LanceDB index, the file system and the MCP server.
Numbers of single precision cross into the library as bit patterns; arithmetic
on them stays in the program.
