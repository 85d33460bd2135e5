# listem

A small todo-list web application (axum, askama, diesel on SQLite) whose
decision-making core is a library verified with Verus.

- `src/` — the verified library:
  - `csrf` — double-submit-cookie CSRF protection: the request verdict,
    Cookie header parsing, constant-time comparison, random hex tokens and the
    `Set-Cookie` value, with the round-trip laws between them.
  - `models` — the todo records and the validation of the create and edit
    forms.
  - `routes` — what the handlers compute: the todo list page (stable sort by
    title or importance, completion counts), the error answers, the pages.
  - `sorting` — stable insertion sort by lexicographic keys.
  - `text` — Unicode whitespace and trimming, UTF-8 byte lengths, string
    comparison.
  - `api` — the task forms of the older task API and its small decisions.
- `app/` — the server: `main`, the router, the CSRF middleware, the handlers,
  and the database access through diesel.
- `tests/` — tests of the library on concrete values.
