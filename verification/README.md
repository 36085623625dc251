# ledger_hub

A server that polls SimpleFIN and LunchFlow for account and transaction data,
stores it in SQLite, reconciles the two sources, and serves the result as an
FDX v6 REST API. The logic is a verified Verus library; the program around it does
the I/O.

## Layout

- `src/` — the library, all of it verified.
  - `double`, `text`, `util`, `amount` — floating point values by bit pattern with
    exact rounding, decimal texts, dates and timestamps, amounts.
  - `config`, `state`, `error` — configuration, state in memory, errors.
  - `db`, `fetcher`, `fetcher_loop`, `lunchflow` — request windows, the records that
    replies lead to, the steps of the polling loop and of a LunchFlow account.
  - `reconciler` — scoring, account matching, transaction matching, unified
    transactions and the user's rules.
  - `fdx` — response types, the mapping of records to them, and what each request is
    answered.
- `tests/` — tests of the library.
- `app/` — the program: `main`, SQLite queries, HTTP handlers, provider clients.

## Floating point

Amounts and confidences are IEEE 754 doubles, carried by their 64-bit patterns
(`double::Double`). Sums, products, ratios and comparisons with one cent are computed
on integers and proved to round to the nearest double, ties to even. Decimal amounts
are read in `app/`, which hands the library the text beside the double it reads as.

## What is trusted

Six small functions call other code and are believed: `str::to_lowercase`, four
`chrono` calls (format and parse of dates and RFC 3339 timestamps) and
`strsim::normalized_levenshtein`. Each states above its contract what it claims.
