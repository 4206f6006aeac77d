# sherlock

The verified core of the Sherlock application launcher. `src/` is checked
by Verus; `app/` holds the thin layer that talks to the operating system.

- `pango`: the Pango markup subset (`<b>`, `<i>`, `<br>`, `<span>`,
  entities) turned into plain text and styled runs; cached renderings.
- `url`: deciding whether search text is a URL, host or address.
- `scoring`, `sort_key`: relevance scores and the order of results.
- `intent`: tokens, filler words, a token cursor, translation requests.
- `process`: the process search (matching, scoring, bounded result list,
  the walk over the process table).
- `choice`: the drop-down choice input.
- `render`: `{name}` placeholders in command templates.
- `format`: title case for theme names.
- `timer`: pausable countdown timers.
- `message`: length-prefixed socket frames.
- `config`, `widgets`: reload decisions, counter narrowing, list items.
- `desktop`: the icon a desktop entry gives a running program.
- `text`: character helpers shared by the modules above.

Laws that span several functions are stated as `law_*` proof functions
next to the code they are about.
