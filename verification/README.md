# jylsp

A small language server that validates JSON and YAML documents against the JSON Schema that they
name, with its logic verified by Verus.

- `*.json` documents name their schema by the top-level member `$schema`. Schema errors are reported
  at the exact source range of the value that they are about.
- `*.yml` and `*.yaml` documents are converted to JSON first. A comment such as
  `# yaml-language-server: $schema=./schema.json` names the schema, or else the top-level member
  `$schema`. Schema errors are reported at the start of the document.
- A document that names no schema is not validated.

A schema is named by an `https://`, `http://` or `file://` URI, or by a path, which is taken from the
directory of the document. A fragment behind it is kept.

A report holds no more diagnostics than `--max-errors` allows. Where a JSON document has more
schema errors, the last place is taken by a note that says so. No more compiled schemas are
kept than `--schema-cache-size` allows, and `format` is checked with `--validate-formats` alone.

## Layout

`src/` is the verified library:

- `text`, `text_index`, `pointer`: characters, positions in a text, JSON pointers
- `json`, `json_tree`, `yaml_json`, `yaml_spans`, `yaml_agree`: values, syntax trees, and how their
  pointers agree
- `uri`, `schema`, `table`: where schemas are, how they are read, which compiled ones are kept
- `report`, `validate`, `steps`: what is said of a document, and the steps that lead there
- `backend`: the open documents and what is published about them

What the library takes from outside crates stands behind functions marked
`#[verifier::external_body]`, each with a comment that says what is claimed of the call.

`app/` is the server around it: arguments, the protocol, files and the network. `tests/` runs the
library with the real crates.

## Run

```
jylsp --stdio
```

Only the protocol is written to standard output; logs go to standard error.
