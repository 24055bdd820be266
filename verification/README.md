# balena_temen

A template engine for JSON: an object that holds the evaluation keyword
(`$$formula` by default) is replaced by the value of the expression it holds.
Expressions read other values of the same document (`super.ssid`, `this`,
`a.b[0]`), do integer arithmetic, compare, concatenate strings, and call
filters and functions.

- `src/` is the library, verified with Verus: the JSON model (`json`), the
  expression syntax (`ast`) and its parser (`parser`), identifier lookup
  (`lookup`), the engine (`engine`) with the evaluation of whole documents
  (`engine/helper`), what an evaluation gives (`semantics`), and laws that
  relate its operations (`laws`). Filters, functions, and arithmetic on
  floats are carried out by a `Host` that the caller supplies (`context`); a
  `Context` records each call made of it with its answer, and the contracts
  say what the engine makes of every answer. The host is reachable only
  through the recording methods of `context`, so the record is the calls
  that were made.
- `app/` holds the parts around it: conversion from and to `serde_json`, the
  built-in filters and functions, float arithmetic, and the WebAssembly entry
  point.
- `tests/` exercises the library through its public interface.
