# aircraft_core

The verified core of a live parametric wing-design tool. An aircraft
document holds raw parameters and typed station fields whose values are
literals, parameter references or dimensional expressions; the library turns
it into a typed dependency graph and proves what it does with it.

## Layout

- `src/` — the library, verified with Verus.
  - `dim`, `units`: dimensions (length and angle exponents) and unit names.
  - `lexer`, `parser`, `ast`, `reprint`, `number`, `decimal`: the expression
    language, with the law that printing an expression and parsing the text
    gives the expression back.
  - `check`, `eval`: dimensional checking of expressions and evaluation errors.
  - `model`, `node`, `builder`, `resolve`, `infer`, `order`, `graph`: the
    document model and the graph: reference resolution, parameter dimension
    inference, cycle detection, the deterministic evaluation order and
    descendant closure.
  - `incremental`: the law that re-evaluating only an edit's descendants
    gives the values of a full evaluation.
  - `schema`: JSON Schema validation of raw documents (through `jsonschema`).
  - `semantic`, `tangency`, `panels`, `profile`: semantic validation, the
    leading-edge tangency language, the per-panel tangency plan and the NACA
    4-series code.
  - `engine`, `mesh`, `cli`, `diagnostic`, `text`: patches, staging, the
    committed snapshot and patch results, job admission, selection tracing,
    mesh topology checks, report text and diagnostics.
- `tests/` — tests of the library on concrete documents and expressions.
- `app/` — the command-line program around the library: JSON (de)serialisation,
  floating-point evaluation, geometry, meshing and file export. It reads the
  normative schema from `schemas/aircraft-definition-v0.1.schema.json`.
