# crawl_boi

A concurrent web crawler whose decisions are proved with Verus.

- `src/` is the verified library: robots.txt parsing and checking
  (`robots`, with its laws in `robots_laws` and `robots_stanzas`), the
  crawl scope (`scope`),
  link extraction (`parser`), path and page budgets (`types`), the crawl
  scheduler (`crawler`), plain-text output (`output`) and the checks made
  on the command line (`args`). URLs are parsed and resolved by the `url`
  crate and HTML is read by the `scraper` crate, each behind a small
  trusted wrapper whose contract names what the crate returns.
- The scheduler is a state machine: `Crawler::start` takes the outcome of
  the robots.txt fetch, `Crawler::next_fetch` hands out the next URL to
  fetch and `Crawler::complete` takes each fetch's outcome. Its invariant
  guarantees that no URL is fetched twice, that budgets, scope and
  robots.txt are respected, and that every link a crawl may follow is
  followed.
- `app/` is the command-line program: argument parsing with `clap`, HTTP
  with `reqwest`, and the asynchronous loop that performs the fetches the
  scheduler asks for.
- `tests/` runs the library on concrete inputs.
