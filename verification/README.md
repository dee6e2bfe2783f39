# URTrends

The backend of a dashboard that shows how many providers a network has in each country. A store
holds a snapshot of the counts for every quarter of an hour; the web API answers with summaries,
rankings, regional totals, churn and projections.

- `src/` is the library: everything that is decided or computed from the replies of the store,
  with contracts that Verus proves. A request is a value that says what to ask the store for
  next; it takes the reply and goes on, until it is answered. A reply is `None` where the query
  failed.
- `app/` is the server around it: routes, SQL queries, JSON, and what is computed in floating
  point (churn rates, the weighted growth rate, thresholds in percent).
- `tests/` runs the library on concrete values.

Where a sum or a difference might not fit its type, the library has a function that tells so
beforehand, such as `SummaryReplies::do_changes_fit`; the server stops such a request.

Not proved, but believed of code outside: how `chrono` reads, moves and writes timestamps
(`src/clock.rs`), and how the standard library writes a text in upper case (`src/text.rs`).

The server reads `DATABASE_URL` (default `~/urtrends/providers.db`), `REGIONS_FILE` (a JSON object
from country codes to regions, default `regions.json`) and `DASHBOARD_FILE` (default
`index.html`), and listens on `0.0.0.0:5001`.
