# sqlx_interp

`{...}` placeholders for SQL, verified with Verus.

A query may refer to its arguments by position (`{0}`), by name (`{name}`), as a
spread list (`{ids*}`, `{ids+}`), or, in the macros, by an expression (`{(expr)}`).
Both the query builder, at run time, and the `query!()` macros, at compile time,
replace these by the native placeholders of a database.

- `grammar`: what the placeholder syntax means.
- `placeholders`: cuts a SQL text at its placeholders.
- `database`: what a query asks of a database.
- `query_interp`: the query builder.
- `tokens`, `spans`, `expr`: Rust tokens and expressions, as far as the macros look
  at them.
- `input`: reads what a macro is called with.
- `rewrite`: resolves placeholders to bind expressions.
- `args`: lays out what a macro expands to.
- `text`: characters, numbers, string slices.
- `parse_laws`, `interp_laws`, `input_laws`, `rewrite_laws`: what holds of all of
  these together.

`app/` holds what works on the compiler's own tokens, reads files or quotes code.
