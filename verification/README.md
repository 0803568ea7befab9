# pyrs_yaml_core

The core of a round-trip YAML engine, written in Verus: the data types of the
syntax tree, the scanners and formatters that work on YAML text, and the
rules that resolve, validate, edit and serialize documents, each with a
contract that Verus proves.

## Layout

- `src/` — the verified library. Notable modules:
  - `ast`, `tree`, `node_eq`: the syntax tree, its mathematical value, and
    node equality (source ranges ignored, mappings compared as maps).
  - `comment`, `stream`: comment and anchor extraction from raw text, and the
    receiver that turns parser events into a stream of structural and comment
    events; `parse_stream` runs the YAML parser (`saphyr-parser`) and hands
    its events to that receiver.
  - `schema`, `schema_language`, `registry`, `validate`: implicit typing under
    the YAML schemas, rule-based schemas, the schema registry and validation
    (a walk that records the checks a tree needs, then the resolver's answer
    for each scalar check, so that a user's resolver decides only the types
    it is asked for).
  - `merge`, `navigate`, `metadata`, `edit`: merge keys, path navigation
    (also for writing in place), metadata transfer between nodes, and the
    path edits (set, with missing mappings made on request; insert; append;
    delete; rename) with laws that a read after a write gives back what was
    written and that keys stay unique. Each edit also returns the text unit
    (insert, replaced region or deletion) that lets the splice layer change
    the source in place; `unit_plan` and `region` state those units and the
    line geometry they are computed from.
  - `scalar_fmt`, `serializer`, `splice`, `dirty`: scalar formatting, the
    serializer, and the splice layer that reassembles edited source text.
  - `document`: a parsed document that tracks edits, flushes its source text
    (spliced or re-serialized) and supports nested transactions.
  - `stream_dump`, `front_matter`, `snippet`, `key_paths`, `tag_resolve`:
    chunked output of document streams, Markdown front matter, parse error
    reports quoting the source, key/index paths of a tree's nodes, and the
    application of user tag handlers to tagged scalars.
  - `config`: the validated settings of a configured YAML instance.
  - `i18n`, `handlers`, `error`: language negotiation and message templates,
    tag and type handler registries, and error values.
- `tests/` — tests of the library.
- `app/` — what the library leaves to its host: process-wide language state
  and schema registry, locale detection from the environment, the reading of
  translation catalogues, the rendering of resolved types in
  type-mismatch messages, error types with
  `std::error::Error`, and streaming dumps to an `io::Write` sink.
