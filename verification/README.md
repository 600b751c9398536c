# path_ser

Fills a URL path template such as `/users/:user_id/:s` with a value given in
the serde data model.

- `src/` is the verified library (Verus): the `Value` model of serde's data
  model, the `Serializer` state machine and `to_string`, the text helpers
  (decimal rendering, first-occurrence replacement) and, in `laws`, the
  proved properties of the whole.
- `app/` is the serde front end: `to_string<T: Serialize>` records the calls
  of a `Serialize` impl as a `Value` and hands it to the library.
- `tests/` runs the library on concrete values.
