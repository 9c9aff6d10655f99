# backoffice_api

A web gateway to the back office of a school accounting service: it logs
users in, keeps their sessions, searches clients and lists organisations by
driving the back office's HTML forms, and echoes messages over a websocket.

- `src/` is the verified library (Verus):
  - `text` — whitespace, trimming, words, joining, infix search, decimal
    printing and parsing of `i32`, each stated over `Seq<char>`;
  - `html` — the lookups made with the `tl` HTML parser, as trusted items:
    inner text is named as a function of the page and the query; rendered
    HTML, whose attribute order varies, is not;
  - `assoc` — lists of entries with distinct keys read as maps (sessions,
    forms);
  - `api::web_api` — sessions, the session checks that open each handler,
    reading the organisation and client pages, paging, search fields;
  - `api::web_api::web_api` — the decisions of the second generation of
    the handlers (their requests are not routed): names split into parts,
    search and download plans, the forms posted by the organisation
    filter, the full download and the person card;
  - `socket` — the websocket decisions.
- `app/` is the server: routes, HTTP requests to the back office, the
  database query, JSON.
- `tests/` runs the library on concrete pages and strings.
