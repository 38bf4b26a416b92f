# serpyco_rs

The byte-level core of a JSON / MessagePack serializer for Python
dataclasses, written in Verus: every function in `src/` is proved against its
contract. The Python module in `app/` exposes the `Serializer` class, whose
`load_bytes` / `dump_bytes` (and `load` / `dump` of plain Python data, and
`load_query_params`) run the verified loader and dumper, and the specialized
codec for issue-tracker records.

The serializer's schema covers `None`, `bool`, `int`, `str`, `bytes`, UUIDs,
dates, times and date-times, enumerations and literals, optional types,
lists, tuples, dictionaries, dataclasses and typed dicts, and unions.
Python types outside that list (floats, decimals, `Any`, discriminated
unions, custom encoders), flattened fields and `omit_none` are refused when
a `Serializer` is made.

## Layout

- `src/` — the verified library.
  - Writers: `json_writer`, `msgpack_writer`, `format_writer` (one writer for
    either format), `escape`, `numtext`, `any_value` (values of any shape).
  - Readers: `json_scan` (the JSON scanner: tokens, strings with escapes,
    skipping), `msgpack_parser`, `msgpack_grammar`, `decode_error`,
    `value_render` (the budgeted Python-style text of a MessagePack value
    for error messages, one step at a time).
  - Date-times: `datetime_text` (RFC 3339 read and write), `dates`
    (date, time and date-time texts through `speedate`).
  - Validation and errors: `validators`, `errors`, `context`, `type_info`,
    `value_repr`, `str_kind`, `iterator_utils`.
  - The serializer: `loader` (the schema, and loading a MessagePack
    document into build operations, with validation and error paths),
    `json_reader` (the JSON pull reader over `jiter`), `json_loader` (the
    same load over JSON, and `load_bytes`, which picks the reader by format
    id), `dumper` (checking a value against the schema and writing it),
    `query_cast` (query-string texts read as the numbers and flags that the
    schema asks for),
    `encoder_plan` (the encoder of each node of a type description),
    `object_load` (routing an object's keys to its fields, defaults and
    missing required fields).
  - The GitHub-issue codec: `issue_keys`, `issue_dump`, `issue_load`.
  - Laws: `json_laws`, `msgpack_laws`, `datetime_laws`, `any_laws`.
  - Outside crates are reached only through the small trusted items in
    `stacks` (`smallvec`), `text` (`simdutf8`), `numtext` (`itoa`),
    `json_reader` (`jiter`),
    `dates` (`speedate`), `validators` (`uuid`), `str_kind`
    (`bytecount`, `encoding_rs`) and `value_repr`.
- `tests/` — tests of the library on concrete values.
- `app/` — the Python extension module (`pyo3`): the `Serializer` class
  (Python type descriptions into the schema, build operations into Python
  objects), the codec class, the error classes, conversion of Python
  values, and the float formatting (`ryu`).
