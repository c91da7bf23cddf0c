# vnscope

The decision-making core of a market-data and warehouse backend, written in Verus: every
function under `src/` carries a contract, and Verus proves each one, except the few small
wrappers marked `#[verifier::external_body]` that call outside crates (hashing, hex, XML
writing, dates, MD5, AES-GCM, random numbers, UTF-8 decoding): their contracts are trusted,
and each wrapper's doc comment says what it claims of the outside function.

- `src/` — the verified library: a least-recently-used cache and the week-block candle cache
  built on it, candle windows for simulation, provider selection and merging of price
  series, paging and grouping of warehouse listings, request headers and statuses, the chat
  bridge's checks, sitemap and news documents, service-token sealing, the rule engine's
  named time series and their batched writes to object storage, and the start-up choices
  of the service.
- `tests/` — tests of the library on concrete values.
- `app/` — the HTTP service around the library: it reads requests, the environment and the
  clock, does the floating-point work (volume profiles, the evolutionary search for trading
  factors), and leaves the decisions to the library.
