# kv_serde

Reads documents made of `dotted.key = value` lines:

```
# comments and blank lines are skipped
name = John Smith
inner.id = 69
items.0 = a
items.1 = b
items.length = 2
```

A key's components name nested maps; components made of digits name the
elements of a sequence, which may stand in any order and may be closed by a
`length` (or `num`) line that bounds them.

Errors carry byte spans. The leading lines that are empty or begin with `#`
count as their length without the line terminator plus one, and a line of
white space ends them; spans are measured from there on.

- `src/` is the verified library: `document` (lines, keys, values and
  their byte spans), `parser` (the cursor that walks the lines scope by scope),
  `seq` (reading sequences in index order), `seq_laws` (what a whole
  sequence reads as: its elements in increasing index order, whatever the
  order of their lines; a length above every index bounds nothing), `shift`
  (blank and comment lines anywhere in an input leave its entries' texts as
  they are and only move what follows them), `atom` (reading one value as a
  primitive), `text` (character classes and measures), `error`.
- `app/` implements `serde::Deserializer` on top of the library and offers
  `from_str`.
- `tests/` runs the library on concrete documents.
